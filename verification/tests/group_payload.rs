use tacenta::group::payload::GroupPayload;
use tacenta::group::{ApplicationContext, Error, GroupId, Member, Roster, DIGEST_LEN, POLICY_VERSION_V1};

const GROUP_PAYLOAD_DOMAIN: &[u8] = b"Tacenta Group Payload v1";

fn alice() -> Member {
    Member::new(b"alice".to_vec(), vec![1])
}

fn bob() -> Member {
    Member::new(b"bob".to_vec(), vec![1])
}

fn roster() -> Roster {
    Roster::new(GroupId::new(*b"bounded-group-id"), 1, [0; DIGEST_LEN], alice(), POLICY_VERSION_V1, false, vec![
        alice(),
        bob(),
    ])
    .unwrap()
}

#[test]
fn application_and_control_payloads_have_distinct_canonical_tags() {
    let application = GroupPayload::Application(
        ApplicationContext::new(GroupId::new(*b"bounded-group-id"), 1, [7; DIGEST_LEN], alice(), bob(), 2, b"hello".to_vec())
            .unwrap(),
    );
    let control = GroupPayload::Roster(roster());
    let application_bytes = application.encode().unwrap();
    let control_bytes = control.encode().unwrap();
    assert_ne!(application_bytes, control_bytes);
    assert_eq!(GroupPayload::decode(&application_bytes), Ok(application));
    assert_eq!(GroupPayload::decode(&control_bytes), Ok(control));
    assert_eq!(application_bytes[GROUP_PAYLOAD_DOMAIN.len()], 1);
    assert_eq!(control_bytes[GROUP_PAYLOAD_DOMAIN.len()], 2);
}

#[test]
fn payload_decoder_refuses_unknown_type_and_trailing_bytes() {
    let mut unknown = GroupPayload::Roster(roster()).encode().unwrap();
    unknown[GROUP_PAYLOAD_DOMAIN.len()] = 99;
    assert_eq!(GroupPayload::decode(&unknown), Err(Error::Malformed));

    let mut trailing = GroupPayload::Roster(roster()).encode().unwrap();
    trailing.push(0);
    assert_eq!(GroupPayload::decode(&trailing), Err(Error::Malformed));
}
