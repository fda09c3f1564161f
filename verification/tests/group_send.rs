use tacenta::group::send::{GroupOutbox, LogicalSend, OutboxDisposition, RecipientDisposition};
use tacenta::group::{ApplicationContext, Error, GroupId, Member, Roster, DIGEST_LEN, MAX_LIVE_LOGICAL_SENDS, POLICY_VERSION_V1};

fn group() -> GroupId {
    GroupId::new(*b"bounded-group-id")
}

fn alice() -> Member {
    Member::new(b"alice-key".to_vec(), vec![1])
}

fn bob() -> Member {
    Member::new(b"bob-key".to_vec(), vec![1])
}

fn carol() -> Member {
    Member::new(b"carol-key".to_vec(), vec![1])
}

fn roster() -> Roster {
    Roster::new(group(), 2, [0; DIGEST_LEN], alice(), POLICY_VERSION_V1, false, vec![alice(), bob(), carol()]).unwrap()
}

fn send() -> LogicalSend {
    LogicalSend::new(&roster(), [9; DIGEST_LEN], alice(), 8, vec![bob(), carol()], b"hello".to_vec()).unwrap()
}

fn send_at(sequence: u64) -> LogicalSend {
    let mut send = send();
    send.id.sequence = sequence;
    send
}

#[test]
fn a_logical_send_fixes_the_context_and_recipient_set() {
    let logical_send = send();
    assert_eq!(logical_send.id.group_id, group());
    assert_eq!(logical_send.id.revision, 2);
    assert_eq!(logical_send.id.sequence, 8);
    assert_eq!(logical_send.application_context(&bob()).unwrap().payload, b"hello");
    assert_eq!(logical_send.application_context(&Member::new(b"eve".to_vec(), vec![1])), Err(Error::NotMember));
}

#[test]
fn canonical_intent_round_trips_to_pending_recipient_progress() {
    let original = send();
    let recovered = LogicalSend::decode_intent(&original.encode_intent().unwrap()).unwrap();

    assert_eq!(recovered, original);
    assert!(recovered.recipients().iter().all(|progress| {
        progress.disposition == RecipientDisposition::Pending
            && progress.context_commitment.is_none()
            && progress.ciphertext.is_none()
            && progress.attempts_reserved == 0
    }));
}

#[test]
fn intent_recovery_refuses_noncanonical_or_trailing_recipient_data() {
    let mut reordered = send();
    reordered.recipients.swap(0, 1);
    assert_eq!(LogicalSend::decode_intent(&reordered.encode_intent().unwrap()), Err(Error::NonCanonical));

    let mut trailing = send().encode_intent().unwrap();
    trailing.push(0);
    assert_eq!(LogicalSend::decode_intent(&trailing), Err(Error::Malformed));
}

fn test_payload_commitment(bytes: &[u8]) -> [u8; DIGEST_LEN] {
    let mut commitment = [0u8; DIGEST_LEN];
    for (index, byte) in bytes.iter().enumerate() {
        commitment[index % DIGEST_LEN] ^= byte;
    }
    commitment
}

fn put_lp(out: &mut Vec<u8>, value: &[u8]) {
    out.extend_from_slice(&(value.len() as u32).to_be_bytes());
    out.extend_from_slice(value);
}

fn progress_record(tag: &[u8; 4], context: &ApplicationContext, ciphertext: &[u8], suffix: &[u8]) -> Vec<u8> {
    let context = context.encode().unwrap();
    let mut record = tag.to_vec();
    put_lp(&mut record, &context);
    record.extend_from_slice(&test_payload_commitment(&context));
    put_lp(&mut record, ciphertext);
    record.extend_from_slice(suffix);
    record
}

fn intent_record(send: &LogicalSend) -> Vec<u8> {
    let intent = send.encode_intent().unwrap();
    let mut record = b"TCGI".to_vec();
    record.extend_from_slice(&(intent.len() as u32).to_be_bytes());
    record.extend_from_slice(&intent);
    record
}

#[test]
fn outbox_recovery_replays_preparation_handoff_and_relay_acceptance() {
    let mut original = send();
    let context = original.application_context(&bob()).unwrap();
    let ciphertext = vec![1, 2, 3];
    original.record_prepared(&bob(), test_payload_commitment(&context.encode().unwrap()), ciphertext.clone()).unwrap();
    original.reserve_handoff(&bob()).unwrap();
    original.record_relay_accepted(&bob()).unwrap();

    let entries = vec![
        intent_record(&send()),
        progress_record(b"TCGP", &context, &ciphertext, &[]),
        progress_record(b"TCGH", &context, &ciphertext, &[1, 0]),
        progress_record(b"TCGA", &context, &ciphertext, &[]),
    ];
    let recovered = GroupOutbox::recover_from_transcript(group(), &entries, test_payload_commitment).unwrap();

    assert_eq!(recovered.sends(), &[original]);
}

#[test]
fn outbox_recovery_refuses_a_progress_record_with_the_wrong_commitment() {
    let original = send();
    let context = original.application_context(&bob()).unwrap();
    let entries = vec![intent_record(&original), progress_record(b"TCGP", &context, &[1, 2, 3], &[])];

    assert_eq!(GroupOutbox::recover_from_transcript(group(), &entries, |_| [0; DIGEST_LEN]), Err(Error::Conflict));
}

#[test]
fn preparation_and_retry_keep_the_exact_ciphertext() {
    let mut logical_send = send();
    logical_send.record_prepared(&bob(), [1; DIGEST_LEN], vec![1, 2, 3]).unwrap();
    assert_eq!(
        logical_send.record_prepared(&bob(), [1; DIGEST_LEN], vec![1, 2, 3]).unwrap().ciphertext,
        Some(vec![1, 2, 3])
    );
    assert_eq!(logical_send.record_prepared(&bob(), [1; DIGEST_LEN], vec![1, 2, 4]), Err(Error::Conflict));
    assert_eq!(logical_send.record_prepared(&bob(), [2; DIGEST_LEN], vec![1, 2, 3]), Err(Error::Conflict));
}

#[test]
fn attempts_are_bounded_and_exhaustion_never_claims_nondelivery() {
    let mut logical_send = send();
    logical_send.record_prepared(&bob(), [1; DIGEST_LEN], vec![1, 2, 3]).unwrap();
    for expected_attempt in 1..=3 {
        let progress = logical_send.reserve_handoff(&bob()).unwrap();
        assert_eq!(progress.attempts_reserved, expected_attempt);
    }
    assert_eq!(logical_send.recipients()[0].disposition, RecipientDisposition::ExhaustedUnknown);
    assert_eq!(logical_send.reserve_handoff(&bob()), Err(Error::RetryExhausted));
}

#[test]
fn relay_acceptance_requires_a_committed_handoff() {
    let mut logical_send = send();
    logical_send.record_prepared(&bob(), [1; DIGEST_LEN], vec![1, 2, 3]).unwrap();
    assert_eq!(logical_send.record_relay_accepted(&bob()), Err(Error::WrongDisposition));
    logical_send.reserve_handoff(&bob()).unwrap();
    assert_eq!(
        logical_send.record_relay_accepted(&bob()).unwrap().disposition,
        RecipientDisposition::RelayAccepted
    );
}

#[test]
fn roster_change_cancels_old_unsent_work_and_blocks_handoff_retries() {
    let mut logical_send = send();
    logical_send.record_prepared(&bob(), [1; DIGEST_LEN], vec![1]).unwrap();
    logical_send.record_prepared(&carol(), [2; DIGEST_LEN], vec![2]).unwrap();
    logical_send.reserve_handoff(&bob()).unwrap();
    assert_eq!(
        logical_send.cancel_for_roster_change(&bob()).unwrap().disposition,
        RecipientDisposition::CancelledAfterHandoff
    );
    assert_eq!(logical_send.reserve_handoff(&bob()), Err(Error::WrongDisposition));
    assert_eq!(logical_send.cancel_for_roster_change(&carol()).unwrap().disposition, RecipientDisposition::Cancelled);
}

#[test]
fn newer_roster_cancels_every_incomplete_old_revision_recipient() {
    let mut logical_send = send();
    logical_send.record_prepared(&bob(), [1; DIGEST_LEN], vec![1]).unwrap();
    logical_send.reserve_handoff(&bob()).unwrap();
    logical_send.cancel_for_newer_roster(3);
    assert_eq!(logical_send.recipients()[0].disposition, RecipientDisposition::CancelledAfterHandoff);
    assert_eq!(logical_send.recipients()[1].disposition, RecipientDisposition::Cancelled);
}

#[test]
fn outbox_applies_live_backpressure_without_discarding_terminal_evidence() {
    let mut outbox = GroupOutbox::new(group());
    for sequence in 0..MAX_LIVE_LOGICAL_SENDS as u64 {
        assert_eq!(outbox.record(send_at(sequence)), Ok(OutboxDisposition::Inserted));
    }
    assert_eq!(outbox.record(send_at(8)), Err(Error::OutboxFull));

    outbox.cancel_for_newer_roster(3);
    for sequence in 8..=15 {
        assert_eq!(outbox.record(send_at(sequence)), Ok(OutboxDisposition::Inserted));
    }
    assert_eq!(outbox.sends().len(), 16);
    assert_eq!(outbox.record(send_at(16)), Err(Error::OutboxFull));
}

#[test]
fn outbox_retry_uses_the_committed_record_after_recipient_progresses() {
    let mut outbox = GroupOutbox::new(group());
    let original = send_at(4);
    assert_eq!(outbox.record(original.clone()), Ok(OutboxDisposition::Inserted));
    outbox.send_mut(&original.id).unwrap().record_prepared(&bob(), [1; DIGEST_LEN], vec![1, 2, 3]).unwrap();

    assert_eq!(outbox.record(original), Ok(OutboxDisposition::Duplicate));
    assert_eq!(outbox.sends()[0].recipients()[0].disposition, RecipientDisposition::Prepared);
    assert_eq!(outbox.sends()[0].recipients()[0].ciphertext, Some(vec![1, 2, 3]));
}

#[test]
fn logical_intent_is_canonical_and_excludes_recipient_progress() {
    let mut logical_send = send();
    let before = logical_send.encode_intent().unwrap();
    logical_send.record_prepared(&bob(), [1; DIGEST_LEN], vec![1, 2, 3]).unwrap();
    assert_eq!(logical_send.encode_intent(), Ok(before));
}

#[test]
fn recipients_must_be_active_and_canonical() {
    assert_eq!(
        LogicalSend::new(&roster(), [9; DIGEST_LEN], alice(), 8, vec![carol(), bob()], b"hello".to_vec()),
        Err(Error::NonCanonical)
    );
    assert_eq!(
        LogicalSend::new(&roster(), [9; DIGEST_LEN], alice(), 8, vec![Member::new(b"eve".to_vec(), vec![1])], b"hello".to_vec()),
        Err(Error::NotMember)
    );
}

#[test]
fn a_send_is_found_by_its_identifier() {
    let mut outbox = GroupOutbox::new(group());
    let first = send_at(1);
    outbox.record(first.clone()).unwrap();
    assert_eq!(outbox.send(&first.id), Ok(&first));
    assert!(outbox.send(&send_at(2).id).is_err());
    assert!(!first.is_terminal());
}

#[test]
fn every_progress_operation_keeps_the_intent() {
    let mut s = send();
    let intent = s.encode_intent().unwrap();
    s.record_prepared(&bob(), [3; DIGEST_LEN], vec![1, 2, 3]).unwrap();
    assert_eq!(s.encode_intent().unwrap(), intent);
    s.reserve_handoff(&bob()).unwrap();
    assert_eq!(s.encode_intent().unwrap(), intent);
    s.record_relay_accepted(&bob()).unwrap();
    assert_eq!(s.encode_intent().unwrap(), intent);
    s.cancel_for_roster_change(&carol()).unwrap();
    assert_eq!(s.encode_intent().unwrap(), intent);
    s.cancel_for_newer_roster(3);
    assert_eq!(s.encode_intent().unwrap(), intent);
}

#[test]
fn an_intent_with_swapped_recipients_is_refused() {
    let s = send();
    let intent = s.encode_intent().unwrap();
    let bob_bytes = {
        let mut b = Vec::new();
        put_lp(&mut b, b"bob-key");
        put_lp(&mut b, &[1]);
        b
    };
    let carol_bytes = {
        let mut b = Vec::new();
        put_lp(&mut b, b"carol-key");
        put_lp(&mut b, &[1]);
        b
    };
    let tail_len = bob_bytes.len() + carol_bytes.len();
    let mut swapped = intent[..intent.len() - tail_len].to_vec();
    assert_eq!(&intent[intent.len() - tail_len..], [bob_bytes.clone(), carol_bytes.clone()].concat().as_slice());
    swapped.extend_from_slice(&carol_bytes);
    swapped.extend_from_slice(&bob_bytes);
    assert_eq!(LogicalSend::decode_intent(&swapped).unwrap_err(), Error::NonCanonical);
}
