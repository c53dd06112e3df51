use wol::{build_checked_packet, build_magic_packet, build_packet, datagram, Mac, WolError};

#[test]
fn mac_struct_tests() {
    let mac = Mac::new("ff:ff:ff:ff:ff:ff");
    assert_eq!(
        Mac("ff:ff:ff:ff:ff:ff".into()).as_bytes().unwrap(),
        Mac::new("ff:ff:ff:ff:ff:ff").as_bytes().unwrap()
    );
    assert_eq!(mac.as_bytes().unwrap(), vec![255; 6]);
}

#[test]
fn true_for_valid_mac() {
    assert_eq!(Mac::new("ff:ff:ff:ff:ff:ff").is_valid().unwrap(), true);
    assert_eq!(Mac::new("FF:FF:FF:FF:FF:FF").is_valid().unwrap(), true);
}

#[test]
fn false_for_invalid_mac() {
    assert_eq!(Mac::new("").is_valid().unwrap(), false);
    assert_eq!(Mac::new(":::::").is_valid().unwrap(), false);
    assert_eq!(Mac::new("ff:ff:ff:ff:ff").is_valid().unwrap(), false);
    assert_eq!(Mac::new("zz:zz:zz:zz:zz:zz").is_valid().unwrap(), false);
}

#[test]
fn can_build_magic_packet() {
    let mac = Mac::new("ff:ff:ff:ff:ff:ff");
    assert_eq!(build_packet(&mac).unwrap().is_empty(), false);
    assert_eq!(build_packet(&mac).unwrap().len(), 102);
    assert_eq!(build_packet(&mac).unwrap(), vec![255; 102]);
}

fn expected_packet(mac: [u8; 6]) -> Vec<u8> {
    let mut p = vec![0xff; 6];
    for _ in 0..16 {
        p.extend_from_slice(&mac);
    }
    p
}

#[test]
fn valid_mac_builds_102_bytes_with_header() {
    for text in ["aa:bb:cc:dd:ee:ff", "00:11:22:33:44:55", "Aa:0f:F0:9c:C9:e1"] {
        let p = build_packet(&Mac::new(text)).unwrap();
        assert_eq!(p.len(), 102);
        assert_eq!(&p[0..6], &[0xff; 6]);
    }
}

#[test]
fn mixed_case_mac_bytes() {
    let p = build_packet(&Mac::new("Aa:0f:F0:9c:C9:e1")).unwrap();
    assert_eq!(p, expected_packet([0xaa, 0x0f, 0xf0, 0x9c, 0xc9, 0xe1]));
}

#[test]
fn malformed_macs_are_rejected() {
    for text in [
        "",
        ":::::",
        "ff:ff:ff:ff:ff",
        "zz:zz:zz:zz:zz:zz",
        "not-a-mac",
        "ff-ff-ff-ff-ff-ff",
        "ffffffffffff",
        "ff:ff:ff:ff:ff:ff:",
        ":ff:ff:ff:ff:ff:ff",
        "ff:ff:ff:ff:ff:ff:ff",
        "f:ff:ff:ff:ff:fff",
        "+f:ff:ff:ff:ff:ff",
        " ff:ff:ff:ff:ff:ff",
        "ff:ff:ff:ff:ff:ff\n",
        "gg:00:00:00:00:00",
    ] {
        assert!(matches!(build_packet(&Mac::new(text)), Err(WolError::InvalidMacAddress)), "{:?}", text);
    }
}

#[test]
fn broadcast_mac_packet_is_stable() {
    let first = build_magic_packet("ff:ff:ff:ff:ff:ff").unwrap();
    let second = build_magic_packet("ff:ff:ff:ff:ff:ff").unwrap();
    assert_eq!(first, second);
    assert_eq!(first, vec![0xff; 102]);
}

#[test]
fn address_block_repeats_through_packet() {
    let mac = Mac::new("01:23:45:67:89:ab");
    let bytes = mac.as_bytes().unwrap();
    assert_eq!(bytes, vec![0x01, 0x23, 0x45, 0x67, 0x89, 0xab]);
    let p = build_packet(&mac).unwrap();
    assert_eq!(&p[6..12], &bytes[..]);
    for k in 0..16 {
        assert_eq!(&p[6 + 6 * k..12 + 6 * k], &bytes[..]);
    }
}

#[test]
fn end_to_end_build_for_aa_to_ff() {
    let p = build_magic_packet("aa:bb:cc:dd:ee:ff").unwrap();
    assert_eq!(p, expected_packet([0xaa, 0xbb, 0xcc, 0xdd, 0xee, 0xff]));
    assert_eq!(p.len(), 102);
    assert_eq!(datagram(&p), Some(p.clone()));
}

#[test]
fn end_to_end_not_a_mac() {
    assert!(matches!(build_magic_packet("not-a-mac"), Err(WolError::InvalidMacAddress)));
}

#[test]
fn as_bytes_reads_groups_like_from_str_radix() {
    assert_eq!(Mac::new("+f:0ff:1").as_bytes().unwrap(), vec![0x0f, 0xff, 0x01]);
    assert_eq!(Mac::new("AB").as_bytes().unwrap(), vec![0xab]);
    assert!(matches!(Mac::new("").as_bytes(), Err(WolError::MacConversionFailed)));
    assert!(matches!(Mac::new("ff::ff").as_bytes(), Err(WolError::MacConversionFailed)));
    assert!(matches!(Mac::new("100").as_bytes(), Err(WolError::MacConversionFailed)));
    assert!(matches!(Mac::new("+").as_bytes(), Err(WolError::MacConversionFailed)));
    assert!(matches!(Mac::new("zz").as_bytes(), Err(WolError::MacConversionFailed)));
}

#[test]
fn checked_build_reports_each_outcome() {
    assert!(matches!(
        build_checked_packet(&Mac::new("aa:bb:cc:dd:ee:ff"), false),
        Err(WolError::InvalidMacAddress)
    ));
    assert!(matches!(
        build_checked_packet(&Mac::new("zz:zz:zz:zz:zz:zz"), true),
        Err(WolError::MacConversionFailed)
    ));
    assert!(matches!(
        build_checked_packet(&Mac::new("ff:ff:ff:ff:ff"), true),
        Err(WolError::InvalidBufferLength)
    ));
    assert_eq!(
        build_checked_packet(&Mac::new("1:2:3:4:5:6"), true).unwrap(),
        expected_packet([1, 2, 3, 4, 5, 6])
    );
}

#[test]
fn datagram_takes_first_102_bytes() {
    let mut long = vec![0xff; 6];
    long.extend((0..100u8).collect::<Vec<u8>>());
    let d = datagram(&long).unwrap();
    assert_eq!(d.len(), 102);
    assert_eq!(&d[..], &long[0..102]);
    assert_eq!(datagram(&vec![0xff; 101]), None);
    assert_eq!(datagram(&[]), None);
}
