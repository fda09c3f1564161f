use tacenta::relay::{decode_auth, encode_auth, DeviceAddr};

fn addr() -> DeviceAddr {
    DeviceAddr::new("+alice", 7)
}

#[test]
fn auth_frame_round_trips() {
    let sig = vec![0xde, 0xad, 0xbe, 0xef];
    assert_eq!(decode_auth(&encode_auth(&addr(), &sig)), Some((addr(), sig)));
    assert_eq!(decode_auth(&[]), None);
}

#[test]
fn an_auth_frame_with_trailing_bytes_is_refused() {
    let mut frame = encode_auth(&addr(), b"sig");
    assert!(decode_auth(&frame).is_some());
    frame.push(0);
    assert_eq!(decode_auth(&frame), None);
}
