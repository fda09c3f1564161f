use tacenta::binding::{wrapping_key, ClientError, RestoreOutcome};
use tacenta::provider::{Address, Failure};

#[test]
fn every_error_kind_carries_its_reason() {
    let e = ClientError::invalid("bad address".to_string());
    assert!(matches!(e, ClientError::InvalidArgument { .. }));
    assert_eq!(e.reason(), "bad address");
    let e = ClientError::internal("a bug".to_string());
    assert!(matches!(e, ClientError::Internal { .. }));
    assert_eq!(e.reason(), "a bug");
    assert_eq!(ClientError::RateLimited { reason: "slow down".into() }.reason(), "slow down");
    assert_eq!(ClientError::StoreUnavailable { reason: "locked".into() }.reason(), "locked");
}

#[test]
fn a_wrapping_key_is_exactly_thirty_two_bytes() {
    let bytes: Vec<u8> = (0..32).collect();
    let key = wrapping_key(&bytes).unwrap();
    assert_eq!(key.to_vec(), bytes);
    assert_eq!(wrapping_key(&bytes[..31]), None);
    assert_eq!(wrapping_key(&[0u8; 33]), None);
    assert_eq!(wrapping_key(&[]), None);
}

#[test]
fn addresses_and_outcomes_are_plain_values() {
    let a = Address::new("+alice", 2);
    assert_eq!(a.user, "+alice");
    assert_eq!(a.device, 2);
    assert!(Address::new("+alice", 1) < a);
    assert_ne!(RestoreOutcome::Fresh, RestoreOutcome::SessionsDiscarded);
    assert_ne!(Failure::Undecryptable, Failure::Other);
}
