use tacenta::directory::Directory;
use tacenta::directory_protocol::{
    decode_dir_request, decode_dir_response, encode_dir_request, encode_dir_response, DirRequest, DirResponse,
};
use tacenta::relay::DeviceAddr;

fn addr() -> DeviceAddr {
    DeviceAddr::new("+alice", 3)
}

#[test]
fn protocol_requests_round_trip() {
    for r in [
        DirRequest::Register {
            device: addr(),
            identity: b"id".to_vec(),
            bundle: b"bundle".to_vec(),
            signature: b"sig".to_vec(),
        },
        DirRequest::Lookup { device: addr() },
        DirRequest::Rotate {
            device: addr(),
            new_identity: b"new-id".to_vec(),
            new_bundle: b"new-bundle".to_vec(),
            possession_sig: b"psig".to_vec(),
            rotation_sig: b"rsig".to_vec(),
        },
        DirRequest::SetRecovery { device: addr(), recovery: b"recovery-key".to_vec(), signature: b"sig".to_vec() },
        DirRequest::Recover {
            device: addr(),
            new_identity: b"new-id".to_vec(),
            new_bundle: b"new-bundle".to_vec(),
            possession_sig: b"psig".to_vec(),
            recovery_sig: b"rsig".to_vec(),
        },
        DirRequest::Witness { device: addr(), generation: 0x0102_0304_0506_0708, signature: b"sig".to_vec() },
    ] {
        assert_eq!(decode_dir_request(&encode_dir_request(&r)), Some(r));
    }
}

#[test]
fn protocol_responses_round_trip() {
    for r in [
        DirResponse::Registered,
        DirResponse::Refreshed,
        DirResponse::Rejected,
        DirResponse::PossessionFailed,
        DirResponse::Found { identity: b"id".to_vec(), bundle: b"bundle".to_vec() },
        DirResponse::NotFound,
        DirResponse::Rotated,
        DirResponse::Unauthorized,
        DirResponse::Unregistered,
        DirResponse::RecoverySet,
        DirResponse::NoRecovery,
        DirResponse::ReservedHandle,
        DirResponse::Fresh,
        DirResponse::RolledBack,
        DirResponse::RateLimited,
        DirResponse::RegistrationClosed,
    ] {
        assert_eq!(decode_dir_response(&encode_dir_response(&r)), Some(r));
    }
}

#[test]
fn malformed_is_rejected() {
    assert_eq!(decode_dir_request(&[]), None);
    assert_eq!(decode_dir_request(&[9]), None);
    assert_eq!(decode_dir_request(&[2, 0, 0, 0, 255]), None);
    assert_eq!(decode_dir_request(&[12]), None);
    assert_eq!(decode_dir_response(&[12]), None);
    assert_eq!(decode_dir_response(&[1, 0]), None);
}

#[test]
fn lookup_returns_both_or_nothing() {
    let mut dir = Directory::new();
    let a = addr();
    assert_eq!(dir.lookup(&a), None);
    dir.register(&a, b"id".to_vec(), b"bundle".to_vec());
    assert_eq!(dir.lookup(&a), Some((b"id".to_vec(), b"bundle".to_vec())));
}

#[test]
fn a_deposit_request_round_trips_with_its_bundles() {
    let r = DirRequest::DepositPrekeys {
        device: addr(),
        identity: b"id".to_vec(),
        bundles: vec![b"one".to_vec(), Vec::new(), b"three".to_vec()],
        signature: b"sig".to_vec(),
    };
    let bytes = encode_dir_request(&r);
    assert_eq!(decode_dir_request(&bytes), Some(r));
    let mut longer = bytes.clone();
    longer.push(0);
    assert_eq!(decode_dir_request(&longer), None);
    assert_eq!(decode_dir_request(&bytes[..bytes.len() - 1]), None);
}
