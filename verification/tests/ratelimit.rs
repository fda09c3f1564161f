use tacenta::ratelimit::{IpRateLimiter, RegistrationLimiter, MAX_KEYS, MAX_PER_WINDOW, WINDOW_SECS};

#[test]
fn registration_limit_blocks_after_the_ceiling_and_recovers_after_the_window() {
    let mut rl = RegistrationLimiter::with_max(3);
    for _ in 0..3 {
        assert!(!rl.over_limit_at("192.0.2.4", 1000));
    }
    // The fourth new registration from the same source is refused.
    assert!(rl.over_limit_at("192.0.2.4", 1000));
    // A different source is independent.
    assert!(!rl.over_limit_at("192.0.2.8", 1000));
    // Once the window passes, the first source is allowed again.
    assert!(!rl.over_limit_at("192.0.2.4", 1000 + WINDOW_SECS + 1));
}

#[test]
fn a_refused_attempt_does_not_extend_the_block() {
    let mut rl = RegistrationLimiter::with_max(1);
    assert!(!rl.over_limit_at("192.0.2.4", 1000));
    assert!(rl.over_limit_at("192.0.2.4", 1500));
    assert!(!rl.over_limit_at("192.0.2.4", 1000 + WINDOW_SECS + 1));
}

#[test]
fn varying_the_source_does_not_grow_the_map_without_bound() {
    let mut rl = RegistrationLimiter::default();
    for i in 0..10_000u64 {
        rl.over_limit_at(&format!("10.0.0.{i}"), 1_000);
    }
    rl.over_limit_at("10.0.0.fresh", 1_000 + WINDOW_SECS * 100);
    assert_eq!(rl.held_sources(), 1, "sources that can no longer block are shed");
}

#[test]
fn registration_limit_a_sustained_flood_is_capped() {
    let mut rl = RegistrationLimiter::default();
    for i in 0..(MAX_KEYS + 2_000) {
        rl.over_limit_at(&format!("10.0.{i}"), 1_000);
    }
    assert!(rl.held_sources() <= MAX_KEYS);
}

#[test]
fn ratelimit_blocks_after_the_ceiling_and_recovers_after_the_window() {
    let mut rl = IpRateLimiter::default();
    for _ in 0..MAX_PER_WINDOW {
        assert!(!rl.check_and_record_at("192.0.2.4", 1000));
    }
    assert!(rl.check_and_record_at("192.0.2.4", 1000));
    assert!(!rl.check_and_record_at("192.0.2.8", 1000));
    assert!(!rl.check_and_record_at("192.0.2.4", 1000 + WINDOW_SECS + 1));
}

#[test]
fn varying_the_key_does_not_grow_the_map_without_bound() {
    let mut limiter = IpRateLimiter::default();
    for i in 0..10_000u64 {
        limiter.check_and_record_at(&format!("10.0.0.{i}"), 1_000);
    }
    limiter.check_and_record_at("10.0.0.fresh", 1_000 + WINDOW_SECS * 100);
    assert_eq!(limiter.held_sources(), 1, "callers that can no longer be blocked must be shed");
}

#[test]
fn ratelimit_a_sustained_flood_is_capped() {
    let mut limiter = IpRateLimiter::default();
    for i in 0..(MAX_KEYS + 2_000) {
        limiter.check_and_record_at(&format!("10.0.{i}"), 1_000);
    }
    assert!(limiter.held_sources() <= MAX_KEYS);
}

#[test]
fn a_ceiling_of_zero_is_raised_to_one_for_registrations() {
    let mut rl = RegistrationLimiter::with_max(0);
    assert!(!rl.over_limit_at("192.0.2.4", 1000));
    assert!(rl.over_limit_at("192.0.2.4", 1000));
}

#[test]
fn the_window_edge_is_inclusive() {
    let mut rl = IpRateLimiter::with_limit(1);
    assert!(!rl.check_and_record_at("a", 1000));
    // Exactly one window later the earlier attempt still counts.
    assert!(rl.check_and_record_at("a", 1000 + WINDOW_SECS));
    assert!(!rl.check_and_record_at("a", 1000 + WINDOW_SECS + 1));
}

#[test]
fn the_flood_evicts_the_oldest_and_keeps_a_throttled_caller() {
    let mut rl = IpRateLimiter::with_limit(2);
    // A caller being throttled, seen latest.
    for i in 0..MAX_KEYS as u64 - 1 {
        rl.check_and_record_at(&format!("flood-{i}"), 500);
    }
    assert!(!rl.check_and_record_at("victim", 600));
    assert!(!rl.check_and_record_at("victim", 600));
    assert_eq!(rl.held_sources(), MAX_KEYS);
    // One more source: the oldest flood entry goes, the victim stays.
    assert!(!rl.check_and_record_at("newcomer", 600));
    assert_eq!(rl.held_sources(), MAX_KEYS);
    assert!(rl.check_and_record_at("victim", 600), "the throttled caller was evicted");
}

#[test]
fn the_clocked_attempt_records_like_an_explicit_one() {
    let mut rl = IpRateLimiter::with_limit(1);
    assert!(!rl.check_and_record("203.0.113.7"));
    assert!(rl.check_and_record("203.0.113.7"));
    let mut reg = RegistrationLimiter::with_max(1);
    assert!(!reg.over_limit("203.0.113.7"));
    assert!(reg.over_limit("203.0.113.7"));
}

#[test]
fn refusal_counts_only_accepted_attempts_inside_the_window() {
    let mut rl = RegistrationLimiter::with_max(2);
    assert!(!rl.over_limit_at("192.0.2.4", 0));
    assert!(!rl.over_limit_at("192.0.2.4", 1800));
    // Refused attempts are not counted.
    assert!(rl.over_limit_at("192.0.2.4", 2000));
    assert!(rl.over_limit_at("192.0.2.4", 3000));
    // At 3601 the attempt at 0 has left the window: one accepted attempt remains.
    assert!(!rl.over_limit_at("192.0.2.4", 3601));
    // 1800 and 3601 are both inside the window at 3700.
    assert!(rl.over_limit_at("192.0.2.4", 3700));
}
