use tacenta::persist::{freshness, seal, unseal, Freshness, SealError, SEAL_OVERHEAD};

const KEY: [u8; 32] = [7u8; 32];

#[test]
fn a_sealed_blob_opens_to_what_went_in() {
    let sealed = seal(&KEY, 42, b"state bytes");
    let out = unseal(&KEY, &sealed).expect("our own seal must open");
    assert_eq!(out.generation, 42);
    assert_eq!(out.payload, b"state bytes");
}

#[test]
fn the_generation_cannot_be_lowered_without_breaking_the_tag() {
    let sealed = seal(&KEY, 9, b"state bytes");
    let mut rolled = sealed.clone();
    rolled[1..9].copy_from_slice(&1u64.to_be_bytes());
    assert_ne!(rolled, sealed);
    assert_eq!(unseal(&KEY, &rolled), Err(SealError::BadAuthenticator));
}

#[test]
fn every_single_byte_change_is_refused() {
    let sealed = seal(&KEY, 3, b"a payload worth protecting");
    for i in 0..sealed.len() {
        let mut dirty = sealed.clone();
        dirty[i] ^= 0xFF;
        assert!(unseal(&KEY, &dirty).is_err(), "byte {i} was altered and the blob still opened");
    }
}

#[test]
fn a_different_key_does_not_open_it() {
    let sealed = seal(&KEY, 1, b"x");
    assert_eq!(unseal(&[8u8; 32], &sealed), Err(SealError::BadAuthenticator));
}

#[test]
fn short_and_foreign_blobs_are_refused_before_the_mac() {
    assert_eq!(unseal(&KEY, b"too short"), Err(SealError::TooShort));
    let mut wrong_version = seal(&KEY, 1, b"x");
    wrong_version[0] = 0xFE;
    assert_eq!(unseal(&KEY, &wrong_version), Err(SealError::UnknownVersion));
}

#[test]
fn freshness_follows_the_policy() {
    assert_eq!(freshness(5, 6), Freshness::Current);
    assert_eq!(freshness(5, 5), Freshness::Current);
    assert_eq!(freshness(5, 4), Freshness::RolledBack);
    assert_eq!(freshness(0, 0), Freshness::Current);
}

#[test]
fn the_sealed_layout_is_version_generation_payload_tag() {
    let sealed = seal(&KEY, 0x0102_0304_0506_0708, b"abc");
    assert_eq!(sealed.len(), SEAL_OVERHEAD + 3);
    assert_eq!(sealed[0], 0x01);
    assert_eq!(&sealed[1..9], &[1, 2, 3, 4, 5, 6, 7, 8]);
    assert_eq!(&sealed[9..12], b"abc");
    // The tag is not the body handed back: it depends on the key.
    assert_ne!(&sealed[12..], &seal(&[9u8; 32], 0x0102_0304_0506_0708, b"abc")[12..]);
    // An empty payload seals and opens too.
    let empty = seal(&KEY, 0, b"");
    assert_eq!(empty.len(), SEAL_OVERHEAD);
    let out = unseal(&KEY, &empty).unwrap();
    assert_eq!(out.generation, 0);
    assert!(out.payload.is_empty());
}

#[test]
fn the_tag_is_hmac_sha256_under_the_label() {
    // HMAC-SHA-256 under the key 0x07 * 32 of the label
    // "tacenta:persisted-state:v1\xff" followed by the body: version 1,
    // generation 42, payload "state bytes".
    let sealed = seal(&KEY, 42, b"state bytes");
    assert_eq!(sealed.len(), SEAL_OVERHEAD + 11);
    let expected: [u8; 32] = [
        177, 135, 44, 245, 93, 208, 18, 1, 146, 229, 163, 191, 44, 96, 163, 239, 48, 98, 154, 134, 95, 57, 92, 246,
        15, 39, 42, 201, 172, 60, 171, 71,
    ];
    assert_eq!(&sealed[20..], &expected[..]);
}
