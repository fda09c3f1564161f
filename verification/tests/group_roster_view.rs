use tacenta::group::roster_view::{RosterDisposition, RosterRefusal, RosterView};
use tacenta::group::{GroupId, Member, Roster, DIGEST_LEN, POLICY_VERSION_V1};

fn group() -> GroupId {
    GroupId::new(*b"bounded-group-id")
}

fn alice() -> Member {
    Member::new(b"alice".to_vec(), vec![1])
}

fn bob() -> Member {
    Member::new(b"bob".to_vec(), vec![1])
}

fn carol() -> Member {
    Member::new(b"carol".to_vec(), vec![1])
}

fn roster(revision: u64, predecessor_digest: [u8; DIGEST_LEN], members: Vec<Member>) -> Roster {
    Roster::new(group(), revision, predecessor_digest, alice(), POLICY_VERSION_V1, false, members).unwrap()
}

#[test]
fn pending_observer_becomes_active_only_at_its_admission_revision() {
    let mut view = RosterView::accept_genesis(&alice(), roster(0, [0; DIGEST_LEN], vec![alice()]), [1; DIGEST_LEN]).unwrap();
    assert!(!view.is_active(&bob()));
    assert_eq!(
        view.accept_successor(&alice(), roster(1, [1; DIGEST_LEN], vec![alice(), bob()]), [2; DIGEST_LEN]),
        RosterDisposition::Accepted
    );
    assert!(view.is_active(&bob()));
    assert!(!view.is_active(&carol()));
    assert_eq!(
        view.accept_successor(&alice(), roster(2, [2; DIGEST_LEN], vec![alice(), bob(), carol()]), [3; DIGEST_LEN]),
        RosterDisposition::Accepted
    );
    assert!(view.is_active(&carol()));
}

#[test]
fn successor_refusals_preserve_the_last_accepted_view() {
    let mut view = RosterView::accept_genesis(&alice(), roster(0, [0; DIGEST_LEN], vec![alice()]), [1; DIGEST_LEN]).unwrap();
    let before = view.clone();
    assert_eq!(
        view.accept_successor(&bob(), roster(1, [1; DIGEST_LEN], vec![alice(), bob()]), [2; DIGEST_LEN]),
        RosterDisposition::Rejected(RosterRefusal::WrongAuthority)
    );
    assert_eq!(view, before);
    assert_eq!(
        view.accept_successor(&alice(), roster(2, [1; DIGEST_LEN], vec![alice(), bob()]), [2; DIGEST_LEN]),
        RosterDisposition::Rejected(RosterRefusal::MissingPredecessor)
    );
    assert_eq!(view, before);
}

#[test]
fn exact_current_roster_is_a_duplicate_but_a_same_revision_change_conflicts() {
    let initial = roster(0, [0; DIGEST_LEN], vec![alice()]);
    let mut view = RosterView::accept_genesis(&alice(), initial.clone(), [1; DIGEST_LEN]).unwrap();
    assert_eq!(view.accept_successor(&alice(), initial, [1; DIGEST_LEN]), RosterDisposition::Duplicate);
    assert_eq!(
        view.accept_successor(&alice(), roster(0, [0; DIGEST_LEN], vec![alice(), bob()]), [1; DIGEST_LEN]),
        RosterDisposition::Rejected(RosterRefusal::Conflict)
    );
}

#[test]
fn a_successor_from_another_group_or_an_older_revision_is_refused() {
    let mut view = RosterView::accept_genesis(&alice(), roster(0, [0; DIGEST_LEN], vec![alice()]), [1; DIGEST_LEN]).unwrap();
    assert_eq!(
        view.accept_successor(&alice(), roster(1, [1; DIGEST_LEN], vec![alice(), bob()]), [2; DIGEST_LEN]),
        RosterDisposition::Accepted
    );
    let elsewhere = Roster::new(GroupId::new(*b"other-group-id!!"), 2, [2; DIGEST_LEN], alice(), POLICY_VERSION_V1, false, vec![
        alice(),
    ])
    .unwrap();
    assert_eq!(
        view.accept_successor(&alice(), elsewhere, [3; DIGEST_LEN]),
        RosterDisposition::Rejected(RosterRefusal::WrongGroup)
    );
    assert_eq!(
        view.accept_successor(&alice(), roster(0, [0; DIGEST_LEN], vec![alice()]), [1; DIGEST_LEN]),
        RosterDisposition::Rejected(RosterRefusal::StaleRevision)
    );
    assert_eq!(view.digest(), &[2; DIGEST_LEN]);
    assert_eq!(view.roster().revision, 1);
}
