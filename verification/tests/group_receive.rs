use tacenta::group::receive::{GroupReceiver, ReceiveDisposition, ReceiveRefusal, RevalidatedReceive};
use tacenta::group::{ApplicationContext, GroupId, Member, Roster, DIGEST_LEN, POLICY_VERSION_V1};

fn alice() -> Member {
    Member::new(b"alice".to_vec(), vec![1])
}
fn bob() -> Member {
    Member::new(b"bob".to_vec(), vec![1])
}
fn group() -> GroupId {
    GroupId::new(*b"bounded-group-id")
}
fn receiver() -> GroupReceiver {
    GroupReceiver::new(
        Roster::new(group(), 2, [0; DIGEST_LEN], alice(), POLICY_VERSION_V1, false, vec![alice(), bob()]).unwrap(),
        [9; DIGEST_LEN],
        bob(),
    )
}
fn context(revision: u64, sequence: u64) -> ApplicationContext {
    ApplicationContext::new(group(), revision, [9; DIGEST_LEN], alice(), bob(), sequence, b"hello".to_vec()).unwrap()
}

#[test]
fn current_messages_deduplicate_with_stable_event_ids() {
    let mut receiver = receiver();
    assert_eq!(receiver.receive(&context(2, 7), &alice(), [1; DIGEST_LEN]), ReceiveDisposition::Accepted { event_id: 0 });
    assert_eq!(receiver.receive(&context(2, 7), &alice(), [1; DIGEST_LEN]), ReceiveDisposition::Duplicate { event_id: 0 });
    assert_eq!(
        receiver.receive(&context(2, 7), &alice(), [2; DIGEST_LEN]),
        ReceiveDisposition::Rejected(ReceiveRefusal::Conflict)
    );
}

#[test]
fn peer_roster_and_future_bounds_are_enforced() {
    let mut receiver = receiver();
    assert_eq!(
        receiver.receive(&context(2, 7), &bob(), [1; DIGEST_LEN]),
        ReceiveDisposition::Rejected(ReceiveRefusal::WrongPeer)
    );
    assert_eq!(receiver.receive(&context(4, 7), &alice(), [1; DIGEST_LEN]), ReceiveDisposition::Deferred);
    assert_eq!(
        receiver.receive(&context(5, 7), &alice(), [1; DIGEST_LEN]),
        ReceiveDisposition::Rejected(ReceiveRefusal::FutureOutOfRange)
    );
}

#[test]
fn deferred_items_are_revalidated_before_a_new_roster_can_deliver_them() {
    let mut receiver = receiver();
    let future = ApplicationContext::new(group(), 3, [10; DIGEST_LEN], alice(), bob(), 7, b"hello".to_vec()).unwrap();
    assert_eq!(receiver.receive(&future, &alice(), [1; DIGEST_LEN]), ReceiveDisposition::Deferred);
    let next = Roster::new(group(), 3, [9; DIGEST_LEN], alice(), POLICY_VERSION_V1, false, vec![alice(), bob()]).unwrap();
    assert_eq!(
        receiver.install_accepted_roster(next, [10; DIGEST_LEN]),
        Ok(vec![RevalidatedReceive {
            context: future,
            commitment: [1; DIGEST_LEN],
            disposition: ReceiveDisposition::Accepted { event_id: 0 },
        }])
    );
}

#[test]
fn event_ids_count_up_across_distinct_messages() {
    let mut receiver = receiver();
    assert_eq!(receiver.receive(&context(2, 1), &alice(), [1; DIGEST_LEN]), ReceiveDisposition::Accepted { event_id: 0 });
    assert_eq!(receiver.receive(&context(2, 2), &alice(), [2; DIGEST_LEN]), ReceiveDisposition::Accepted { event_id: 1 });
    assert_eq!(receiver.receive(&context(2, 1), &alice(), [1; DIGEST_LEN]), ReceiveDisposition::Duplicate { event_id: 0 });
    assert_eq!(receiver.receive(&context(2, 3), &alice(), [3; DIGEST_LEN]), ReceiveDisposition::Accepted { event_id: 2 });
}

#[test]
fn each_refusal_names_the_first_check_that_failed() {
    let mut receiver = receiver();
    let other_group = GroupId::new(*b"other-group-id!!");
    let wrong_group =
        ApplicationContext::new(other_group, 2, [9; DIGEST_LEN], alice(), bob(), 1, b"x".to_vec()).unwrap();
    assert_eq!(
        receiver.receive(&wrong_group, &alice(), [1; DIGEST_LEN]),
        ReceiveDisposition::Rejected(ReceiveRefusal::WrongGroup)
    );
    let to_alice = ApplicationContext::new(group(), 2, [9; DIGEST_LEN], bob(), alice(), 1, b"x".to_vec()).unwrap();
    assert_eq!(
        receiver.receive(&to_alice, &bob(), [1; DIGEST_LEN]),
        ReceiveDisposition::Rejected(ReceiveRefusal::WrongRecipient)
    );
    let carol = Member::new(b"carol".to_vec(), vec![1]);
    let from_carol = ApplicationContext::new(group(), 2, [9; DIGEST_LEN], carol.clone(), bob(), 1, b"x".to_vec()).unwrap();
    assert_eq!(
        receiver.receive(&from_carol, &carol, [1; DIGEST_LEN]),
        ReceiveDisposition::Rejected(ReceiveRefusal::NotActive)
    );
    assert_eq!(
        receiver.receive(&context(1, 1), &alice(), [1; DIGEST_LEN]),
        ReceiveDisposition::Rejected(ReceiveRefusal::OldRevision)
    );
    let wrong_digest = ApplicationContext::new(group(), 2, [8; DIGEST_LEN], alice(), bob(), 1, b"x".to_vec()).unwrap();
    assert_eq!(
        receiver.receive(&wrong_digest, &alice(), [1; DIGEST_LEN]),
        ReceiveDisposition::Rejected(ReceiveRefusal::InvalidRoster)
    );
}

#[test]
fn the_deferred_queue_is_bounded() {
    let mut receiver = receiver();
    for sequence in 0..4 {
        assert_eq!(receiver.receive(&context(3, sequence), &alice(), [1; DIGEST_LEN]), ReceiveDisposition::Deferred);
    }
    // The same deferred message again is still deferred; a changed one conflicts.
    assert_eq!(receiver.receive(&context(3, 0), &alice(), [1; DIGEST_LEN]), ReceiveDisposition::Deferred);
    assert_eq!(
        receiver.receive(&context(3, 0), &alice(), [2; DIGEST_LEN]),
        ReceiveDisposition::Rejected(ReceiveRefusal::Conflict)
    );
    assert_eq!(
        receiver.receive(&context(3, 9), &alice(), [1; DIGEST_LEN]),
        ReceiveDisposition::Rejected(ReceiveRefusal::DeferredFull)
    );
}
