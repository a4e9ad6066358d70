use smtp_receiver::limiter::{normalize_sender, RateLimitDecision, RateLimiter};

const SECOND: u128 = 1_000_000_000;

#[test]
fn rate_limiter_applies_global_and_sender_limits() {
    let now: u128 = 1_000 * SECOND;
    let mut limiter = RateLimiter::new(2, 1, 60 * SECOND);

    assert_eq!(
        limiter.check_and_record("a@example.test", now),
        RateLimitDecision::Accepted
    );
    assert_eq!(
        limiter.check_and_record("a@example.test", now),
        RateLimitDecision::SenderLimited
    );
    assert_eq!(
        limiter.check_and_record("b@example.test", now),
        RateLimitDecision::Accepted
    );
    assert_eq!(
        limiter.check_and_record("c@example.test", now),
        RateLimitDecision::GlobalLimited
    );
}

#[test]
fn rate_limiter_window_expires() {
    let now: u128 = 1_000 * SECOND;
    let mut limiter = RateLimiter::new(1, 1, 60 * SECOND);

    assert_eq!(
        limiter.check_and_record("a@example.test", now),
        RateLimitDecision::Accepted
    );
    assert_eq!(
        limiter.check_and_record("a@example.test", now + 60 * SECOND),
        RateLimitDecision::Accepted
    );
}

#[test]
fn rate_limiter_keeps_events_until_the_window_is_over() {
    let now: u128 = 1_000 * SECOND;
    let mut limiter = RateLimiter::new(1, 0, 60 * SECOND);

    assert_eq!(limiter.check_and_record("a", now), RateLimitDecision::Accepted);
    assert_eq!(
        limiter.check_and_record("b", now + 60 * SECOND - 1),
        RateLimitDecision::GlobalLimited
    );
    assert_eq!(
        limiter.check_and_record("b", now + 60 * SECOND),
        RateLimitDecision::Accepted
    );
}

#[test]
fn rate_limiter_zero_disables_a_limit() {
    let mut limiter = RateLimiter::new(0, 0, 60 * SECOND);
    for _ in 0..1000 {
        assert_eq!(
            limiter.check_and_record("a@example.test", 5),
            RateLimitDecision::Accepted
        );
    }
}

#[test]
fn rate_limiter_does_not_count_refused_attempts() {
    let now: u128 = 1_000 * SECOND;
    let mut limiter = RateLimiter::new(2, 1, 60 * SECOND);
    assert_eq!(limiter.check_and_record("a", now), RateLimitDecision::Accepted);
    for _ in 0..10 {
        assert_eq!(
            limiter.check_and_record("a", now + SECOND),
            RateLimitDecision::SenderLimited
        );
    }
    assert_eq!(
        limiter.check_and_record("b", now + SECOND),
        RateLimitDecision::Accepted
    );
}

#[test]
fn rate_limiter_ignores_case_and_space_around_a_sender() {
    let mut limiter = RateLimiter::new(0, 1, 60 * SECOND);
    assert_eq!(
        limiter.check_and_record(" <A@Example.Test> ", 0),
        RateLimitDecision::Accepted
    );
    assert_eq!(
        limiter.check_and_record("<a@example.test>", 0),
        RateLimitDecision::SenderLimited
    );
    assert_eq!(normalize_sender("\t<A@Example.TEST>\r\n"), "<a@example.test>");
}

#[test]
fn rate_limiter_refuses_exactly_at_its_limits() {
    let window: u128 = 10;
    let mut limiter = RateLimiter::new(3, 2, window);
    let mut accepted: Vec<(&str, u128)> = Vec::new();
    for (now, sender) in [
        (0, "a"), (1, "a"), (2, "a"), (3, "b"), (4, "c"), (10, "c"), (11, "a"), (11, "b"),
        (12, "c"), (13, "b"), (20, "a"), (40, "a"),
    ] {
        let in_window = |s: &str| {
            let own = |e: &&(&str, u128)| now - e.1 < window && (s.is_empty() || e.0 == s);
            accepted.iter().filter(own).count()
        };
        let expected = if in_window("") >= 3 {
            RateLimitDecision::GlobalLimited
        } else if in_window(sender) >= 2 {
            RateLimitDecision::SenderLimited
        } else {
            RateLimitDecision::Accepted
        };
        assert_eq!(limiter.check_and_record(sender, now), expected, "{now} {sender}");
        if expected == RateLimitDecision::Accepted {
            accepted.push((sender, now));
        }
    }
}
