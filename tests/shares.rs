use rdir::shares::{
    CommonShareName, FullShareName, Ipv4Addr, RemotePeerAddr, ShareName, MAX_SHARE_NAME_LENGTH, NETWORK_PORT,
};

#[test]
fn common_share_name_parse() {
    assert!(CommonShareName::from_str("Example").is_ok());
    assert!(CommonShareName::from_str(&"A".repeat(MAX_SHARE_NAME_LENGTH)).is_ok());
    assert!(CommonShareName::from_str(&"A".repeat(MAX_SHARE_NAME_LENGTH + 1))
        .unwrap_err()
        .is_name_too_long());
}

#[test]
fn full_share_name_parse() {
    let name = FullShareName::from_str("1.2.3.4/Example").unwrap();
    assert_eq!(name.addr.addr, Ipv4Addr::from_octets([1, 2, 3, 4]));
    assert_eq!(name.addr.port, None);

    let name = FullShareName::from_str("1.2.3.4:1234/Example").unwrap();
    assert_eq!(name.addr.addr, Ipv4Addr::from_octets([1, 2, 3, 4]));
    assert_eq!(name.addr.port, Some(1234));

    let name = FullShareName::from_str(&format!("1.2.3.4:{NETWORK_PORT}/Example")).unwrap();
    assert_eq!(name.addr.addr, Ipv4Addr::from_octets([1, 2, 3, 4]));
    assert_eq!(name.addr.port, None);

    assert!(FullShareName::from_str("Example").unwrap_err().is_no_separator());
    assert!(FullShareName::from_str("").unwrap_err().is_no_separator());
    assert!(FullShareName::from_str("Invalid IP/Example")
        .unwrap_err()
        .is_invalid_address());
    assert!(FullShareName::from_str(&format!("1.1.1.1/{}", "A".repeat(MAX_SHARE_NAME_LENGTH + 1)))
        .unwrap_err()
        .is_invalid_common_share_name());
}

#[test]
fn share_name_parse() {
    assert!(ShareName::from_str("Example").unwrap().is_common());
    assert!(ShareName::from_str("1.1.1.1/Example").unwrap().is_full());
}

#[test]
fn empty_common_name_is_rejected() {
    assert!(CommonShareName::from_str("").unwrap_err().is_empty_name());
    assert!(ShareName::from_str("").is_err());
}

#[test]
fn common_name_length_counts_bytes() {
    // 30 two-byte characters are 60 bytes; one more is too long.
    assert!(CommonShareName::from_str(&"é".repeat(30)).is_ok());
    assert!(CommonShareName::from_str(&"é".repeat(31)).unwrap_err().is_name_too_long());
}

#[test]
fn full_name_formats_canonically() {
    let name = FullShareName::from_str("10.0.0.1:29284/docs").unwrap();
    assert_eq!(name.to_string(), "10.0.0.1/docs");
    let name = FullShareName::from_str("10.0.0.1:80/docs").unwrap();
    assert_eq!(name.to_string(), "10.0.0.1:80/docs");
    assert_eq!(name.addr.to_string(), "10.0.0.1:80");
    assert_eq!(name.name.to_string(), "docs");
}

#[test]
fn full_name_round_trip() {
    for text in ["1.2.3.4/Example", "255.0.10.200:7/a/b", "0.0.0.0:65535/x"] {
        let first = FullShareName::from_str(text).unwrap();
        let again = FullShareName::from_str(&first.to_string()).unwrap();
        assert!(first.same(&again));
        assert_eq!(first.to_string(), text);
    }
}

#[test]
fn address_errors() {
    assert!(RemotePeerAddr::from_str("1.2.3").unwrap_err().is_invalid_address());
    assert!(RemotePeerAddr::from_str("1.2.3.4.5").unwrap_err().is_invalid_address());
    assert!(RemotePeerAddr::from_str("256.1.1.1").unwrap_err().is_invalid_address());
    assert!(RemotePeerAddr::from_str("01.1.1.1").unwrap_err().is_invalid_address());
    assert!(RemotePeerAddr::from_str("1.1.1.1:").unwrap_err().is_port_number());
    assert!(RemotePeerAddr::from_str("1.1.1.1:65536").unwrap_err().is_port_number());
    assert!(RemotePeerAddr::from_str("1.1.1.1:x").unwrap_err().is_port_number());
    assert!(RemotePeerAddr::from_str("1.1.1.1:++1").unwrap_err().is_port_number());
    assert!(RemotePeerAddr::from_str("1.1.1.1:+").unwrap_err().is_port_number());
    assert!(RemotePeerAddr::from_str("1.1.1.1:-1").unwrap_err().is_port_number());
    assert_eq!(RemotePeerAddr::from_str("1.1.1.1:080").unwrap().port, Some(80));
    assert_eq!(RemotePeerAddr::from_str("1.1.1.1:+80").unwrap().port, Some(80));
    assert_eq!(RemotePeerAddr::from_str("1.1.1.1:000000000029284").unwrap().port, None);
    assert_eq!(FullShareName::from_str("1.2.3.4:080/x").unwrap().to_string(), "1.2.3.4:80/x");
    let a = RemotePeerAddr::from_str("1.1.1.1:65535").unwrap();
    assert_eq!(a.port, Some(65535));
    assert_eq!(a.socket_port(), 65535);
    let b = RemotePeerAddr::from_str("127.0.0.1").unwrap();
    assert_eq!(b.socket_port(), NETWORK_PORT);
    assert_eq!(b.addr.octets(), [127, 0, 0, 1]);
}

#[test]
fn name_with_address_prefix_is_full() {
    // A text that parses as a full name never reads as a common name.
    assert!(ShareName::from_str("1.1.1.1/x").unwrap().is_full());
    assert!(ShareName::from_str("host/x").unwrap().is_common());
}
