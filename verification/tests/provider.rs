use tacenta::provider::challenge_parts;

#[test]
fn challenge_parts_take_a_thirty_two_byte_key_and_a_sixty_four_byte_signature() {
    let key = [7u8; 32];
    let sig = [9u8; 64];
    assert_eq!(challenge_parts(&key, &sig), Some((key, sig)));
}

#[test]
fn challenge_parts_refuse_any_other_width() {
    assert_eq!(challenge_parts(&[7u8; 31], &[9u8; 64]), None);
    assert_eq!(challenge_parts(&[7u8; 33], &[9u8; 64]), None);
    assert_eq!(challenge_parts(&[7u8; 32], &[9u8; 63]), None);
    assert_eq!(challenge_parts(&[7u8; 32], &[9u8; 65]), None);
}
