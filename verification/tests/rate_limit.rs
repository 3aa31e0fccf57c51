use ephemeral_store::rate_limit::cleanup_rate_limiter;
use ephemeral_store::rate_limit::RateLimiter;

#[test]
fn fourth_call_within_window_is_rejected() {
    let mut limiter = RateLimiter::new(3);
    let decisions = vec![
        limiter.allow("10.0.0.1", 100),
        limiter.allow("10.0.0.1", 100),
        limiter.allow("10.0.0.1", 100),
        limiter.allow("10.0.0.1", 101),
    ];
    assert_eq!(decisions, vec![true, true, true, false]);
}

#[test]
fn client_is_admitted_again_after_the_window_elapses() {
    let mut limiter = RateLimiter::new(1);
    assert!(limiter.allow("c", 0));
    assert!(!limiter.allow("c", 30));
    // 60 seconds after the recorded request, its instant is pruned
    assert!(limiter.allow("c", 60));
    assert!(!limiter.allow("c", 61));
}

#[test]
fn rejection_does_not_count_as_a_request() {
    let mut limiter = RateLimiter::new(2);
    assert!(limiter.allow("c", 0));
    assert!(limiter.allow("c", 0));
    assert!(!limiter.allow("c", 1));
    assert!(!limiter.allow("c", 2));
    // both admitted requests fall out of the window together
    assert!(limiter.allow("c", 60));
}

#[test]
fn clients_are_limited_independently() {
    let mut limiter = RateLimiter::new(1);
    assert!(limiter.allow("a", 0));
    assert!(limiter.allow("b", 0));
    assert!(!limiter.allow("a", 1));
    assert!(!limiter.allow("b", 1));
}

#[test]
fn zero_quota_rejects_everything() {
    let mut limiter = RateLimiter::new(0);
    assert!(!limiter.allow("c", 0));
    assert!(!limiter.allow("c", 1000));
}

#[test]
fn cleanup_forgets_all_history() {
    let mut limiter = RateLimiter::new(1);
    assert!(limiter.allow("a", 0));
    assert!(!limiter.allow("a", 1));
    cleanup_rate_limiter(&mut limiter);
    assert!(limiter.allow("a", 2));
}
