use tacenta::group::{
    ApplicationContext, Error, GroupId, Member, Roster, DIGEST_LEN, GROUP_ID_LEN, MAX_APPLICATION_CONTEXT_LEN,
    MAX_DEVICE_LEN, MAX_IDENTITY_LEN, MAX_PAYLOAD_LEN, MAX_ROSTER_LEN, POLICY_VERSION_V1, RESERVED_REVISION,
};

const APPLICATION_DOMAIN: &[u8] = b"Tacenta Group Application v1";

fn group() -> GroupId {
    GroupId::new(*b"bounded-group-id")
}

fn alice() -> Member {
    Member::new(b"alice-key".to_vec(), vec![1])
}

fn bob() -> Member {
    Member::new(b"bob-key".to_vec(), vec![1])
}

fn roster() -> Roster {
    Roster::new(group(), 0, [0; DIGEST_LEN], alice(), POLICY_VERSION_V1, false, vec![alice(), bob()]).unwrap()
}

#[test]
fn canonical_roster_round_trips_byte_for_byte() {
    let encoded = roster().encode().unwrap();
    assert_eq!(Roster::decode(&encoded), Ok(roster()));
    assert_eq!(Roster::decode(&encoded).unwrap().encode(), Ok(encoded));
}

#[test]
fn roster_refuses_an_unsorted_or_second_device_identity() {
    let unsorted = Roster::new(group(), 0, [0; DIGEST_LEN], alice(), POLICY_VERSION_V1, false, vec![bob(), alice()]);
    assert_eq!(unsorted, Err(Error::NonCanonical));

    let second_device = Roster::new(
        group(),
        0,
        [0; DIGEST_LEN],
        alice(),
        POLICY_VERSION_V1,
        false,
        vec![alice(), Member::new(b"alice-key".to_vec(), vec![2])],
    );
    assert_eq!(second_device, Err(Error::NonCanonical));

    let separated_second_device = Roster::new(
        group(),
        0,
        [0; DIGEST_LEN],
        Member::new(vec![b'a'], vec![0]),
        POLICY_VERSION_V1,
        false,
        vec![Member::new(vec![b'a'], vec![0]), Member::new(vec![b'a', 1], vec![0]), Member::new(vec![b'a'], vec![2])],
    );
    assert_eq!(separated_second_device, Err(Error::NonCanonical));
}

#[test]
fn roster_accepts_same_device_number_for_different_identities() {
    assert_eq!(roster().members, vec![alice(), bob()]);
}

#[test]
fn roster_refuses_a_reserved_revision_and_trailing_bytes() {
    assert_eq!(
        Roster::new(group(), RESERVED_REVISION, [0; DIGEST_LEN], alice(), POLICY_VERSION_V1, false, vec![alice()]),
        Err(Error::ReservedRevision)
    );
    let mut encoded = roster().encode().unwrap();
    encoded.push(0);
    assert_eq!(Roster::decode(&encoded), Err(Error::Malformed));
}

#[test]
fn application_context_round_trips_and_binds_every_field() {
    let context = ApplicationContext::new(group(), 2, [7; DIGEST_LEN], alice(), bob(), 9, b"hello".to_vec()).unwrap();
    let encoded = context.encode().unwrap();
    assert_eq!(ApplicationContext::decode(&encoded), Ok(context.clone()));

    let changed_payload =
        ApplicationContext::new(group(), 2, [7; DIGEST_LEN], alice(), bob(), 9, b"hellO".to_vec()).unwrap();
    assert_ne!(encoded, changed_payload.encode().unwrap());
}

#[test]
fn application_context_refuses_bad_digest_and_oversized_payload() {
    let mut encoded = ApplicationContext::new(group(), 2, [7; DIGEST_LEN], alice(), bob(), 9, vec![])
        .unwrap()
        .encode()
        .unwrap();
    let digest_length_offset = APPLICATION_DOMAIN.len() + 4 + GROUP_ID_LEN + 8;
    encoded[digest_length_offset..digest_length_offset + 4].copy_from_slice(&31_u32.to_be_bytes());
    assert_eq!(ApplicationContext::decode(&encoded), Err(Error::Malformed));

    assert_eq!(
        ApplicationContext::new(group(), 2, [7; DIGEST_LEN], alice(), bob(), 9, vec![0; MAX_PAYLOAD_LEN + 1]),
        Err(Error::PayloadTooLarge)
    );
}

#[test]
fn group_codecs_reject_oversized_identity_device_and_input_before_parsing() {
    let oversized_identity = Member::new(vec![0; MAX_IDENTITY_LEN + 1], vec![1]);
    assert_eq!(
        Roster::new(
            group(),
            0,
            [0; DIGEST_LEN],
            oversized_identity.clone(),
            POLICY_VERSION_V1,
            false,
            vec![oversized_identity],
        ),
        Err(Error::IdentityTooLarge)
    );
    let oversized_device = Member::new(b"alice-key".to_vec(), vec![1; MAX_DEVICE_LEN + 1]);
    assert_eq!(
        ApplicationContext::new(group(), 0, [0; DIGEST_LEN], oversized_device.clone(), bob(), 0, Vec::new()),
        Err(Error::DeviceTooLarge)
    );
    assert_eq!(Roster::decode(&vec![0; MAX_ROSTER_LEN + 1]), Err(Error::RosterTooLarge));
    assert_eq!(ApplicationContext::decode(&vec![0; MAX_APPLICATION_CONTEXT_LEN + 1]), Err(Error::ContextTooLarge));
}

#[test]
fn a_roster_grants_exactly_its_members() {
    let r = roster();
    assert!(r.grants(&alice()));
    assert!(r.grants(&bob()));
    assert!(!r.grants(&Member::new(b"carol-key".to_vec(), vec![1])));
    assert!(!r.grants(&Member::new(b"alice-key".to_vec(), vec![2])));
}

#[test]
fn members_sort_by_identity_then_device() {
    let a1 = Member::new(b"a".to_vec(), vec![1]);
    let a2 = Member::new(b"a".to_vec(), vec![2]);
    let b0 = Member::new(b"b".to_vec(), vec![0]);
    assert!(a1.sorts_before(&a2));
    assert!(a2.sorts_before(&b0));
    assert!(!b0.sorts_before(&a1));
    assert!(!a1.sorts_before(&a1));
    assert_eq!(GroupId::from_slice(b"bounded-group-id"), Ok(group()));
    assert_eq!(GroupId::from_slice(b"short"), Err(Error::Malformed));
}
