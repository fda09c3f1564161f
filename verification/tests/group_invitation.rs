use tacenta::group::invitation::{Invitation, InvitationBook, InvitationId, InvitationStatus};
use tacenta::group::{Error, GroupId, Member, DIGEST_LEN, GROUP_ID_LEN, POLICY_VERSION_V1};

const INVITATION_BOOK_STATE_DOMAIN: &[u8] = b"Tacenta Group Invitation Book State v1";

fn group() -> GroupId {
    GroupId::new(*b"bounded-group-id")
}

fn alice() -> Member {
    Member::new(b"alice-key".to_vec(), vec![1])
}

fn bob() -> Member {
    Member::new(b"bob-key".to_vec(), vec![1])
}

fn invitation(id: u8) -> Invitation {
    Invitation::new(InvitationId::new([id; 16]), group(), bob(), 0, [0; DIGEST_LEN], POLICY_VERSION_V1, 10).unwrap()
}

#[test]
fn acceptance_does_not_activate_membership_and_admission_does() {
    let mut book = InvitationBook::new(group());
    book.create(&alice(), &alice(), &[alice()], invitation(7), 0).unwrap();
    assert_eq!(
        book.accept(InvitationId::new([7; 16]), &bob(), 0, &[0; DIGEST_LEN], 1).unwrap().status,
        InvitationStatus::AcceptedPendingAdmission
    );
    assert_eq!(
        book.admit_invitation(InvitationId::new([7; 16]), &alice(), &alice(), 1, 2).unwrap().status,
        InvitationStatus::Admitted { revision: 1 }
    );
}

#[test]
fn revocation_and_expiry_win_over_admission() {
    let mut book = InvitationBook::new(group());
    book.create(&alice(), &alice(), &[alice()], invitation(7), 0).unwrap();
    book.accept(InvitationId::new([7; 16]), &bob(), 0, &[0; DIGEST_LEN], 1).unwrap();
    book.revoke(InvitationId::new([7; 16]), &alice(), &alice(), 2).unwrap();
    assert_eq!(book.admit_invitation(InvitationId::new([7; 16]), &alice(), &alice(), 1, 2), Err(Error::Revoked));

    let mut expiring = InvitationBook::new(group());
    expiring.create(&alice(), &alice(), &[alice()], invitation(8), 0).unwrap();
    assert_eq!(expiring.accept(InvitationId::new([8; 16]), &bob(), 0, &[0; DIGEST_LEN], 10), Err(Error::Expired));
}

#[test]
fn retries_keep_the_committed_record_and_changed_fields_conflict() {
    let mut book = InvitationBook::new(group());
    book.create(&alice(), &alice(), &[alice()], invitation(7), 0).unwrap();
    assert_eq!(
        book.create(&alice(), &alice(), &[alice()], invitation(7), 1).unwrap().status,
        InvitationStatus::Pending
    );
    let mut conflicting = invitation(7);
    conflicting.expires_at = 11;
    assert_eq!(book.create(&alice(), &alice(), &[alice()], conflicting, 1), Err(Error::Conflict));
}

#[test]
fn source_and_authenticated_target_are_checked_before_state_changes() {
    let mut book = InvitationBook::new(group());
    book.create(&alice(), &alice(), &[alice()], invitation(7), 0).unwrap();
    assert_eq!(book.accept(InvitationId::new([7; 16]), &alice(), 0, &[0; DIGEST_LEN], 1), Err(Error::WrongTarget));
    assert_eq!(book.accept(InvitationId::new([7; 16]), &bob(), 1, &[0; DIGEST_LEN], 1), Err(Error::StaleSource));
    assert_eq!(book.records()[0].status, InvitationStatus::Pending);
}

#[test]
fn a_record_for_another_group_cannot_enter_this_books_lifecycle() {
    let mut book = InvitationBook::new(group());
    let other_group = GroupId::new(*b"other-group-id!!");
    let other_invitation =
        Invitation::new(InvitationId::new([7; 16]), other_group, bob(), 0, [0; DIGEST_LEN], POLICY_VERSION_V1, 10)
            .unwrap();
    assert_eq!(book.create(&alice(), &alice(), &[alice()], other_invitation, 0), Err(Error::Conflict));
    assert!(book.records().is_empty());
}

#[test]
fn invitation_book_state_round_trips_every_lifecycle_disposition() {
    let mut book = InvitationBook::new(group());
    book.create(&alice(), &alice(), &[alice()], invitation(8), 0).unwrap();
    book.create(&alice(), &alice(), &[alice()], invitation(7), 0).unwrap();
    book.accept(InvitationId::new([7; 16]), &bob(), 0, &[0; DIGEST_LEN], 1).unwrap();
    book.admit_invitation(InvitationId::new([7; 16]), &alice(), &alice(), 1, 2).unwrap();
    let state = book.encode_state().unwrap();
    let restored = InvitationBook::decode_state(&state, group()).unwrap();
    assert_eq!(restored.records().len(), 2);
    assert_eq!(restored.records()[0].status, InvitationStatus::Admitted { revision: 1 });
    assert_eq!(restored.records()[1].status, InvitationStatus::Pending);
    assert_eq!(restored.encode_state().unwrap(), state);
}

#[test]
fn invitation_book_state_refuses_reordered_or_trailing_records() {
    let mut book = InvitationBook::new(group());
    book.create(&alice(), &alice(), &[alice()], invitation(7), 0).unwrap();
    book.create(&alice(), &alice(), &[alice()], invitation(8), 0).unwrap();
    let state = book.encode_state().unwrap();
    let domain_len = INVITATION_BOOK_STATE_DOMAIN.len();
    let first_id = domain_len + GROUP_ID_LEN + 1;
    let record_len = 16 + 2 + bob().identity().len() + 2 + bob().device().len() + 8 + DIGEST_LEN + 4 + 8 + 1;
    let mut reordered = state.clone();
    let first = reordered[first_id..first_id + record_len].to_vec();
    reordered.copy_within(first_id + record_len..first_id + 2 * record_len, first_id);
    reordered[first_id + record_len..first_id + 2 * record_len].copy_from_slice(&first);
    assert_eq!(InvitationBook::decode_state(&reordered, group()), Err(Error::NonCanonical));
    let mut trailing = state;
    trailing.push(0);
    assert_eq!(InvitationBook::decode_state(&trailing, group()), Err(Error::Malformed));
}

#[test]
fn only_the_authority_revokes_and_a_decoded_book_keeps_its_group() {
    let mut book = InvitationBook::new(group());
    book.create(&alice(), &alice(), &[alice()], invitation(7), 0).unwrap();
    assert!(book.revoke(InvitationId::new([7; 16]), &bob(), &alice(), 1).is_err());
    assert_eq!(book.records()[0].status, InvitationStatus::Pending);
    let state = book.encode_state().unwrap();
    assert!(InvitationBook::decode_state(&state, GroupId::new(*b"other-group-id!!")).is_err());
    assert_eq!(InvitationBook::decode_state(&state, group()).unwrap().group_id(), group());
}

#[test]
fn the_checkpoint_does_not_depend_on_arrival_order() {
    let mut first = InvitationBook::new(group());
    first.create(&alice(), &alice(), &[alice()], invitation(8), 0).unwrap();
    first.create(&alice(), &alice(), &[alice()], invitation(7), 0).unwrap();
    let mut second = InvitationBook::new(group());
    second.create(&alice(), &alice(), &[alice()], invitation(7), 0).unwrap();
    second.create(&alice(), &alice(), &[alice()], invitation(8), 0).unwrap();
    for book in [&mut first, &mut second] {
        book.accept(InvitationId::new([8; 16]), &bob(), 0, &[0; DIGEST_LEN], 1).unwrap();
        book.revoke(InvitationId::new([7; 16]), &alice(), &alice(), 2).unwrap();
    }
    let state = first.encode_state().unwrap();
    assert_eq!(second.encode_state().unwrap(), state);
    let restored = InvitationBook::decode_state(&state, group()).unwrap();
    assert_eq!(restored.records()[0].id, InvitationId::new([7; 16]));
    assert_eq!(restored.records()[1].id, InvitationId::new([8; 16]));
    assert_eq!(restored.encode_state().unwrap(), state);
}
