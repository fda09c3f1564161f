use tacenta::directory_core::{register_core, rotate_core, witness_core, Registration, Rotation, Witness};

#[test]
fn register_core_is_tofu() {
    let k = b"key".to_vec();
    assert_eq!(register_core(None, k.clone()), (Registration::Registered, k.clone()));
    assert_eq!(register_core(Some(k.clone()), k.clone()), (Registration::Refreshed, k.clone()));
    // A different key presented to a bound device is rejected and the
    // existing binding is preserved.
    assert_eq!(register_core(Some(k.clone()), b"other".to_vec()), (Registration::Rejected, k));
}

#[test]
fn rotate_core_requires_a_binding() {
    let new = b"new".to_vec();
    assert_eq!(rotate_core(None, new.clone()), (Rotation::Unregistered, None));
    assert_eq!(rotate_core(Some(b"old".to_vec()), new.clone()), (Rotation::Rotated, Some(new)));
}

#[test]
fn witness_core_keeps_the_highest_generation() {
    assert_eq!(witness_core(None, 4), (Witness::Fresh, 4));
    assert_eq!(witness_core(Some(4), 4), (Witness::Fresh, 4));
    assert_eq!(witness_core(Some(4), 9), (Witness::Fresh, 9));
    assert_eq!(witness_core(Some(9), 4), (Witness::RolledBack, 9));
}
