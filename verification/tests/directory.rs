use tacenta::directory::{Deposit, Directory};
use tacenta::directory_core::{Registration, Rotation, Witness};
use tacenta::relay::DeviceAddr;

fn addr(user: &str, device: u32) -> DeviceAddr {
    DeviceAddr::new(user, device)
}

#[test]
fn the_witness_is_monotone_and_catches_a_rollback() {
    let bob = DeviceAddr::new("+bob", 1);
    let mut dir = Directory::new();

    // An unregistered device cannot be witnessed.
    assert_eq!(dir.witness(&bob, 5), Witness::Unregistered);

    dir.register(&bob, b"bob-id".to_vec(), b"bundle".to_vec());

    // First witness sets the anchor; equal and higher stay fresh.
    assert_eq!(dir.witness(&bob, 5), Witness::Fresh);
    assert_eq!(dir.witness(&bob, 5), Witness::Fresh);
    assert_eq!(dir.witness(&bob, 7), Witness::Fresh);

    // A lower generation is a rollback, and the anchor does not drop.
    assert_eq!(dir.witness(&bob, 6), Witness::RolledBack);
    assert_eq!(dir.generation(&bob), Some(7), "the anchor never decreases");
    assert_eq!(dir.witness(&bob, 6), Witness::RolledBack);
    assert_eq!(dir.witness(&bob, 8), Witness::Fresh);
}

#[test]
fn a_refresh_does_not_reset_the_witnessed_generation() {
    let bob = DeviceAddr::new("+bob", 1);
    let mut dir = Directory::new();
    dir.register(&bob, b"bob-id".to_vec(), b"bundle".to_vec());
    assert_eq!(dir.witness(&bob, 9), Witness::Fresh);

    assert_eq!(dir.register(&bob, b"bob-id".to_vec(), b"newer-bundle".to_vec()), Registration::Refreshed);

    assert_eq!(dir.generation(&bob), Some(9));
    assert_eq!(dir.witness(&bob, 4), Witness::RolledBack);
}

#[test]
fn rotation_resets_the_witnessed_generation() {
    let bob = DeviceAddr::new("+bob", 1);
    let mut dir = Directory::new();
    dir.register(&bob, b"old-id".to_vec(), b"bundle".to_vec());
    assert_eq!(dir.witness(&bob, u64::MAX), Witness::Fresh);
    assert_eq!(dir.witness(&bob, 1), Witness::RolledBack);

    assert_eq!(dir.rotate(&bob, b"new-id".to_vec(), b"new-bundle".to_vec()), Rotation::Rotated);
    assert_eq!(dir.generation(&bob), None, "the anchor resets on rotation");
    assert_eq!(dir.witness(&bob, 1), Witness::Fresh);
}

#[test]
fn register_and_look_up() {
    let mut dir = Directory::new();
    let bob1 = DeviceAddr::new("+bob", 1);
    let bob2 = DeviceAddr::new("+bob", 2);

    assert_eq!(dir.register(&bob1, b"bob1-identity".to_vec(), b"bob1-bundle".to_vec()), Registration::Registered);
    assert_eq!(dir.register(&bob2, b"bob2-identity".to_vec(), b"bob2-bundle".to_vec()), Registration::Registered);

    assert_eq!(dir.identity(&bob1), Some(&b"bob1-identity"[..]));
    assert_eq!(dir.bundle(&bob2), Some(&b"bob2-bundle"[..]));
    assert_eq!(dir.devices_of("+bob"), &[1, 2]);

    assert_eq!(dir.identity(&DeviceAddr::new("+nobody", 1)), None);
    assert_eq!(dir.devices_of("+nobody"), &[] as &[u32]);
}

#[test]
fn same_identity_refreshes_the_bundle() {
    let mut dir = Directory::new();
    let bob1 = DeviceAddr::new("+bob", 1);
    dir.register(&bob1, b"bob-identity".to_vec(), b"old-bundle".to_vec());

    assert_eq!(dir.register(&bob1, b"bob-identity".to_vec(), b"new-bundle".to_vec()), Registration::Refreshed);
    assert_eq!(dir.bundle(&bob1), Some(&b"new-bundle"[..]));
    assert_eq!(dir.devices_of("+bob"), &[1]);
}

#[test]
fn a_different_identity_cannot_take_a_bound_address() {
    let mut dir = Directory::new();
    let bob1 = DeviceAddr::new("+bob", 1);
    dir.register(&bob1, b"bob-identity".to_vec(), b"bob-bundle".to_vec());

    assert_eq!(
        dir.register(&bob1, b"mallory-identity".to_vec(), b"mallory-bundle".to_vec()),
        Registration::Rejected
    );
    assert_eq!(dir.identity(&bob1), Some(&b"bob-identity"[..]));
    assert_eq!(dir.bundle(&bob1), Some(&b"bob-bundle"[..]));
}

#[test]
fn rotate_replaces_a_bound_identity() {
    let mut dir = Directory::new();
    let bob1 = DeviceAddr::new("+bob", 1);

    assert_eq!(dir.rotate(&bob1, b"new-id".to_vec(), b"new-bundle".to_vec()), Rotation::Unregistered);
    assert_eq!(dir.identity(&bob1), None);

    dir.register(&bob1, b"old-id".to_vec(), b"old-bundle".to_vec());
    assert_eq!(dir.rotate(&bob1, b"new-id".to_vec(), b"new-bundle".to_vec()), Rotation::Rotated);
    assert_eq!(dir.identity(&bob1), Some(&b"new-id"[..]));
    assert_eq!(dir.bundle(&bob1), Some(&b"new-bundle"[..]));
    assert_eq!(dir.devices_of("+bob"), &[1]);

    assert_eq!(dir.register(&bob1, b"old-id".to_vec(), b"old-bundle".to_vec()), Registration::Rejected);
}

#[test]
fn each_one_time_bundle_is_served_once() {
    let mut dir = Directory::new();
    let bob = addr("+bob", 1);
    dir.register(&bob, b"bob-id".to_vec(), b"fallback".to_vec());
    dir.deposit_prekeys(&bob, b"bob-id", vec![b"otp-1".to_vec(), b"otp-2".to_vec(), b"otp-3".to_vec()]);

    let served: Vec<Vec<u8>> = (0..3).filter_map(|_| dir.take_bundle(&bob)).collect();
    let mut sorted = served.clone();
    sorted.sort();
    sorted.dedup();
    assert_eq!(sorted.len(), 3, "a one-time bundle was served twice");
    assert_eq!(dir.pool_depth(&bob), 0);

    assert_eq!(dir.take_bundle(&bob), Some(b"fallback".to_vec()));
    assert_eq!(dir.take_bundle(&bob), Some(b"fallback".to_vec()));
}

#[test]
fn only_the_bound_identity_may_deposit() {
    let mut dir = Directory::new();
    let bob = addr("+bob", 1);
    dir.register(&bob, b"bob-id".to_vec(), b"fallback".to_vec());

    assert_eq!(dir.deposit_prekeys(&bob, b"mallory-id", vec![b"evil".to_vec()]), Deposit::Rejected);
    assert_eq!(dir.pool_depth(&bob), 0);
    assert_eq!(dir.deposit_prekeys(&addr("+nobody", 1), b"any", vec![b"x".to_vec()]), Deposit::Unregistered);
    assert_eq!(dir.deposit_prekeys(&bob, b"bob-id", vec![b"good".to_vec()]), Deposit::Deposited(1));
}

#[test]
fn republishing_and_rotating_clear_the_pool() {
    let mut dir = Directory::new();
    let bob = addr("+bob", 1);
    dir.register(&bob, b"bob-id".to_vec(), b"fallback".to_vec());
    dir.deposit_prekeys(&bob, b"bob-id", vec![b"otp".to_vec()]);
    assert_eq!(dir.pool_depth(&bob), 1);

    dir.register(&bob, b"bob-id".to_vec(), b"fresher".to_vec());
    assert_eq!(dir.pool_depth(&bob), 0, "a refresh kept a stale pool");

    dir.deposit_prekeys(&bob, b"bob-id", vec![b"otp".to_vec()]);
    dir.rotate(&bob, b"bob-id-2".to_vec(), b"rotated".to_vec());
    assert_eq!(dir.pool_depth(&bob), 0, "a rotation kept a stale pool");
}

#[test]
fn the_one_time_pool_is_served_oldest_first() {
    let mut dir = Directory::new();
    let bob = addr("+bob", 1);
    dir.register(&bob, b"bob-id".to_vec(), b"fallback".to_vec());
    assert_eq!(dir.deposit_prekeys(&bob, b"bob-id", vec![b"a".to_vec(), b"b".to_vec()]), Deposit::Deposited(2));
    assert_eq!(dir.deposit_prekeys(&bob, b"bob-id", vec![b"c".to_vec()]), Deposit::Deposited(3));
    assert_eq!(dir.take_bundle(&bob), Some(b"a".to_vec()));
    assert_eq!(dir.take_bundle(&bob), Some(b"b".to_vec()));
    assert_eq!(dir.take_bundle(&bob), Some(b"c".to_vec()));
    assert_eq!(dir.take_bundle(&addr("+nobody", 1)), None);
}
