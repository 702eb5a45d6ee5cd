use ratelimiter::{Limiter, LimiterError, QuotaEntry, QuotaTable};

fn table_of(routes: &[(&str, u64, usize)]) -> QuotaTable {
    let mut table = QuotaTable::new();
    for (route, window_ms, max_count) in routes {
        table.insert(
            (*route).to_owned(),
            QuotaEntry { window_ms: *window_ms, max_count: *max_count },
        );
    }
    table
}

/// A full pass over the engine: three routes with a one-second window and
/// limits 60, 10 and 45; a caller
/// exhausts each limit and is then denied; after the window has passed the
/// sweep frees the capacity; a different caller is unaffected throughout.
#[test]
fn test_limits() {
    let routes: [(&str, u64, usize); 3] =
        [("/test1", 1000, 60), ("/test2", 1000, 10), ("/test3", 1000, 45)];
    let mut limiter = Limiter::new(table_of(&routes));
    let mut now: u64 = 0;

    for (route, _, max_count) in &routes {
        // exhaust requests
        for _ in 0..*max_count {
            now += 1;
            assert!(limiter.process_request("foo", route, now).is_ok());
        }
        // should be error now
        now += 1;
        assert!(limiter.process_request("foo", route, now).is_err());
    }

    // wait out the window and sweep; should be free to request again
    now += 2000;
    assert!(limiter.expire_limits(now).is_ok());

    for (route, _, max_count) in &routes {
        for _ in 0..*max_count {
            now += 1;
            assert!(limiter.process_request("foo", route, now).is_ok());
        }
        now += 1;
        assert!(limiter.process_request("foo", route, now).is_err());
    }

    // no wait; a different api key is free to request at once
    for (route, _, max_count) in &routes {
        for _ in 0..*max_count {
            now += 1;
            assert!(limiter.process_request("bar", route, now).is_ok());
        }
        now += 1;
        assert!(limiter.process_request("bar", route, now).is_err());
    }
}

/// The worked example: window one second, limit 3; three quick requests are
/// admitted, a fourth is denied, and after 1.1 seconds a request is admitted
/// again.
#[test]
fn example_scenario() {
    let mut limiter = Limiter::new(table_of(&[("/test1", 1000, 3)]));
    assert!(limiter.process_request("alice", "/test1", 0).is_ok());
    assert!(limiter.process_request("alice", "/test1", 1).is_ok());
    assert!(limiter.process_request("alice", "/test1", 2).is_ok());
    let denied = limiter.process_request("alice", "/test1", 3);
    assert_eq!(denied, Err(LimiterError::QuotaExceeded));
    assert!(limiter.expire_limits(1100).is_ok());
    assert!(limiter.process_request("alice", "/test1", 1100).is_ok());
}

/// First touch always admits, even under `max_count = 0`; afterwards the
/// route has history and every request is denied.
#[test]
fn zero_limit_first_touch() {
    let mut limiter = Limiter::new(table_of(&[("/never", 1000, 0)]));
    assert!(limiter.process_request("alice", "/never", 0).is_ok());
    assert!(limiter.process_request("alice", "/never", 1).is_err());
    // even a fully expired history does not help: zero is never above zero
    assert!(limiter.expire_limits(5000).is_ok());
    assert!(limiter.process_request("alice", "/never", 5000).is_err());
}

/// A route with no configured quota is always admitted.
#[test]
fn unconfigured_route_admits() {
    let mut limiter = Limiter::new(table_of(&[("/test1", 1000, 1)]));
    for i in 0..100u64 {
        assert!(limiter.process_request("alice", "/free", i).is_ok());
    }
    // sweeps leave it untouched and it keeps admitting
    assert!(limiter.expire_limits(100).is_ok());
    assert!(limiter.process_request("alice", "/free", 100).is_ok());
}

/// Two identities on the same route never interfere: one being denied
/// leaves the other's remaining quota whole.
#[test]
fn independent_identities() {
    let mut limiter = Limiter::new(table_of(&[("/r", 1000, 2)]));
    assert!(limiter.process_request("alice", "/r", 0).is_ok());
    assert!(limiter.process_request("alice", "/r", 1).is_ok());
    assert!(limiter.process_request("alice", "/r", 2).is_err());
    assert!(limiter.process_request("bob", "/r", 3).is_ok());
    assert!(limiter.process_request("bob", "/r", 4).is_ok());
    assert!(limiter.process_request("bob", "/r", 5).is_err());
    assert!(limiter.process_request("alice", "/r", 6).is_err());
}

/// The sweep discards exactly the timestamps whose age has reached the
/// window: a half-expired history frees only the expired slots.
#[test]
fn sweep_is_exact() {
    let mut limiter = Limiter::new(table_of(&[("/r", 1000, 2)]));
    assert!(limiter.process_request("alice", "/r", 0).is_ok());
    assert!(limiter.process_request("alice", "/r", 900).is_ok());
    assert!(limiter.process_request("alice", "/r", 950).is_err());
    // at 1000 the first stamp is exactly window-old and goes; the second stays
    assert!(limiter.expire_limits(1000).is_ok());
    assert!(limiter.process_request("alice", "/r", 1000).is_ok());
    assert!(limiter.process_request("alice", "/r", 1001).is_err());
}

/// Inserting a route again replaces its quota; lookups see the newest entry.
#[test]
fn table_insert_replaces() {
    let mut table = QuotaTable::new();
    table.insert("/r".to_owned(), QuotaEntry { window_ms: 500, max_count: 1 });
    table.insert("/r".to_owned(), QuotaEntry { window_ms: 1000, max_count: 2 });
    assert_eq!(
        table.get(&"/r".to_owned()),
        Some(QuotaEntry { window_ms: 1000, max_count: 2 })
    );
    assert_eq!(table.get(&"/other".to_owned()), None);

    let mut limiter = Limiter::new(table);
    assert!(limiter.process_request("alice", "/r", 0).is_ok());
    assert!(limiter.process_request("alice", "/r", 1).is_ok());
    assert!(limiter.process_request("alice", "/r", 2).is_err());
}

/// A denial carries the quota error, with the message the serving layer
/// reports.
#[test]
fn denial_error_kind() {
    let mut limiter = Limiter::new(table_of(&[("/r", 1000, 0)]));
    assert!(limiter.process_request("alice", "/r", 0).is_ok());
    match limiter.process_request("alice", "/r", 1) {
        Err(e) => {
            assert_eq!(e, LimiterError::QuotaExceeded);
            assert_eq!(e.message(), "API limit reached");
        },
        Ok(()) => panic!("request under an exhausted quota must be denied"),
    }
    assert_ne!(LimiterError::QuotaExceeded, LimiterError::ClockOrLockFailure);
}
