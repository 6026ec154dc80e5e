use crawler::limiter::TokenBucket;

#[test]
fn starts_full_and_spends_one_token_per_grant() {
    let mut b = TokenBucket::new(2, 1);
    assert!(b.try_acquire(0));
    assert!(!b.try_acquire(0));
}

#[test]
fn refills_at_configured_rate() {
    let mut b = TokenBucket::new(2, 1);
    assert!(b.try_acquire(0));
    // 2 tokens per second: half a second buys one token back
    assert!(!b.try_acquire(100));
    assert!(!b.try_acquire(400));
    assert!(b.try_acquire(600));
    assert!(!b.try_acquire(700));
}

#[test]
fn burst_capacity_is_honored() {
    let mut b = TokenBucket::new(1, 5);
    for _ in 0..5 {
        assert!(b.try_acquire(0));
    }
    assert!(!b.try_acquire(0));
    // a long idle spell refills to capacity, no further
    for _ in 0..5 {
        assert!(b.try_acquire(100_000));
    }
    assert!(!b.try_acquire(100_000));
}

#[test]
fn one_second_window_stays_within_rate_plus_burst() {
    // With rate 3 and burst 1, any sliding one-second window sees at most
    // four grants, however often tokens are requested.
    let mut b = TokenBucket::new(3, 1);
    let mut grant_times: Vec<u64> = Vec::new();
    let mut t: u64 = 0;
    while t <= 3000 {
        if b.try_acquire(t) {
            grant_times.push(t);
        }
        t += 25;
    }
    for lo in 0..=3000u64 {
        let in_window =
            grant_times.iter().filter(|&&g| lo <= g && g <= lo + 1000).count();
        assert!(in_window <= 4, "window at {lo} saw {in_window} grants");
    }
}

#[test]
fn stale_clock_readings_are_clamped() {
    let mut b = TokenBucket::new(1, 1);
    assert!(b.try_acquire(5000));
    // an earlier timestamp cannot wind the bucket backwards
    assert!(!b.try_acquire(100));
    assert!(!b.try_acquire(5500));
    assert!(b.try_acquire(6000));
}

#[test]
fn zero_parameters_are_raised_to_one() {
    let mut b = TokenBucket::new(0, 0);
    assert!(b.try_acquire(0));
    assert!(!b.try_acquire(0));
    assert!(b.try_acquire(1000));
}
