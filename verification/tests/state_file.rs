use tacenta::state_file::{decode_state, empty_sessions_blob, encode_state, read_state, DurableError, StateFault};

#[test]
fn a_state_file_reads_back_what_was_written() {
    let bytes = encode_state(b"prekeys", b"sessions");
    assert_eq!(bytes[0], 0x01);
    assert_eq!(bytes[1], 0x01);
    assert_eq!(read_state(&bytes), Ok((Some(&b"prekeys"[..]), &b"sessions"[..])));
    match decode_state(&bytes) {
        Ok((p, s)) => {
            assert_eq!(p, Some(&b"prekeys"[..]));
            assert_eq!(s, b"sessions");
        }
        Err(_) => panic!("a written state file must decode"),
    }
}

#[test]
fn empty_prekeys_are_written_as_absent() {
    let bytes = encode_state(b"", &empty_sessions_blob());
    assert_eq!(bytes, vec![1, 0, 0, 0, 0, 4, 0, 0, 0, 0]);
    assert_eq!(read_state(&bytes), Ok((None, &[0u8, 0, 0, 0][..])));
}

#[test]
fn open_rejects_a_truncated_or_malformed_state_file() {
    assert_eq!(read_state(&[]), Err(StateFault::Empty));
    assert_eq!(read_state(&[2, 0]), Err(StateFault::UnknownVersion));
    assert_eq!(read_state(&[1]), Err(StateFault::TooShort));
    assert_eq!(read_state(&[1, 7, 0, 0, 0, 0]), Err(StateFault::MalformedPresence));
    let bytes = encode_state(b"pk", b"ss");
    for cut in 1..bytes.len() {
        assert!(read_state(&bytes[..cut]).is_err(), "a file cut at {cut} still read");
    }
    let mut longer = bytes.clone();
    longer.push(9);
    assert_eq!(read_state(&longer), Err(StateFault::TrailingBytes));
    assert!(matches!(decode_state(&longer), Err(DurableError::Io(_))));
    assert_eq!(StateFault::TrailingBytes.message(), "state file has trailing bytes");
}
