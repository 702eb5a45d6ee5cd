use vstd::prelude::*;

use crate::quota::QuotaEntry;

verus! {

/// The abstract limiter state: identity name, to route name, to the
/// timestamps (milliseconds) of the admitted requests recorded for the pair,
/// in insertion order.
pub type StateView = Map<Seq<char>, Map<Seq<char>, Seq<u64>>>;

/// The abstract quota table: route name to configured quota.
pub type TableView = Map<Seq<char>, QuotaEntry>;

/// The timestamps never run backwards.
pub open spec fn nondecreasing(ts: Seq<u64>) -> bool {
    forall|i: int, j: int| 0 <= i <= j < ts.len() ==> ts[i] <= ts[j]
}

/// Every timestamp is at or before `now`.
pub open spec fn all_at_most(ts: Seq<u64>, now: u64) -> bool {
    forall|i: int| 0 <= i < ts.len() ==> ts[i] <= now
}

/// Whether a request from `key` to `route` is admitted in state `s` under
/// table `t`: always on the first touch of the identity or of the route, or
/// when the route has no configured quota, or while the recorded count is
/// below the configured maximum.
pub open spec fn admitted(s: StateView, t: TableView, key: Seq<char>, route: Seq<char>) -> bool {
    ||| !s.contains_key(key)
    ||| !s[key].contains_key(route)
    ||| !t.contains_key(route)
    ||| s[key][route].len() < t[route].max_count
}

/// The state after one admission check at time `now`. A first touch of the
/// identity or of the route records a single timestamp; a request to a route
/// with history but no configured quota is admitted without recording; an
/// admission under the quota appends one timestamp; a denial leaves the
/// state unchanged.
pub open spec fn after_request(
    s: StateView,
    t: TableView,
    key: Seq<char>,
    route: Seq<char>,
    now: u64,
) -> StateView {
    if !s.contains_key(key) {
        s.insert(key, Map::empty().insert(route, seq![now]))
    } else if !s[key].contains_key(route) {
        s.insert(key, s[key].insert(route, seq![now]))
    } else if !t.contains_key(route) {
        s
    } else if s[key][route].len() < t[route].max_count {
        s.insert(key, s[key].insert(route, s[key][route].push(now)))
    } else {
        s
    }
}

/// The timestamps still inside the window at time `now`: those whose age is
/// strictly less than `window_ms`, in their original order.
pub open spec fn live_times(ts: Seq<u64>, now: u64, window_ms: u64) -> Seq<u64>
    decreases ts.len(),
{
    if ts.len() == 0 {
        Seq::empty()
    } else if now - ts.last() < window_ms {
        live_times(ts.drop_last(), now, window_ms).push(ts.last())
    } else {
        live_times(ts.drop_last(), now, window_ms)
    }
}

/// One identity's routes after an admission check that found the identity
/// already present, given the route's configured quota if any.
pub open spec fn touched_identity(
    m: Map<Seq<char>, Seq<u64>>,
    q: Option<QuotaEntry>,
    route: Seq<char>,
    now: u64,
) -> Map<Seq<char>, Seq<u64>> {
    if !m.contains_key(route) {
        m.insert(route, seq![now])
    } else {
        match q {
            None => m,
            Some(e) => if m[route].len() < e.max_count {
                m.insert(route, m[route].push(now))
            } else {
                m
            },
        }
    }
}

/// Whether such a check admits the request.
pub open spec fn touch_admits(
    m: Map<Seq<char>, Seq<u64>>,
    q: Option<QuotaEntry>,
    route: Seq<char>,
) -> bool {
    !m.contains_key(route) || match q {
        None => true,
        Some(e) => m[route].len() < e.max_count,
    }
}

/// One identity's routes after a sweep at time `now`: a route with a
/// configured quota keeps only its live timestamps; a route without one is
/// left untouched. No route key is removed.
pub open spec fn swept_identity(
    m: Map<Seq<char>, Seq<u64>>,
    t: TableView,
    now: u64,
) -> Map<Seq<char>, Seq<u64>> {
    Map::new(
        |r: Seq<char>| m.contains_key(r),
        |r: Seq<char>| if t.contains_key(r) {
            live_times(m[r], now, t[r].window_ms)
        } else {
            m[r]
        },
    )
}

/// The whole state after a sweep at time `now`. No identity key is removed.
pub open spec fn after_sweep(s: StateView, t: TableView, now: u64) -> StateView {
    Map::new(
        |k: Seq<char>| s.contains_key(k),
        |k: Seq<char>| swept_identity(s[k], t, now),
    )
}

/// Some recorded timestamp has the given value.
pub open spec fn contains_time(ts: Seq<u64>, v: u64) -> bool {
    exists|i: int| 0 <= i < ts.len() && ts[i] == v
}

/// The live timestamps are drawn from the original ones: each is at or
/// before `now` when all originals are, and their order is kept.
pub proof fn lemma_live_times_props(ts: Seq<u64>, now: u64, window_ms: u64)
    ensures
        live_times(ts, now, window_ms).len() <= ts.len(),
        forall|j: int| 0 <= j < live_times(ts, now, window_ms).len()
            ==> #[trigger] contains_time(ts, live_times(ts, now, window_ms)[j]),
        nondecreasing(ts) ==> nondecreasing(live_times(ts, now, window_ms)),
        all_at_most(ts, now) ==> all_at_most(live_times(ts, now, window_ms), now),
    decreases ts.len(),
{
    let live = live_times(ts, now, window_ms);
    if ts.len() > 0 {
        let rest = ts.drop_last();
        let live_rest = live_times(rest, now, window_ms);
        lemma_live_times_props(rest, now, window_ms);
        assert(forall|i: int| 0 <= i < rest.len() ==> rest[i] == ts[i]);
        if nondecreasing(ts) {
            assert forall|i: int, j: int| 0 <= i <= j < rest.len() implies rest[i] <= rest[j] by {
                assert(ts[i] <= ts[j]);
            }
            if now - ts.last() < window_ms {
                assert forall|i: int, j: int| 0 <= i <= j < live.len() implies live[i] <= live[j] by {
                    if j < live_rest.len() {
                        assert(live_rest[i] <= live_rest[j]);
                    } else if i < live_rest.len() {
                        assert(contains_time(rest, live_rest[i]));
                        let w = choose|w: int| 0 <= w < rest.len() && rest[w] == live_rest[i];
                        assert(ts[w] <= ts.last());
                    }
                }
            }
        }
        assert forall|j: int| 0 <= j < live.len() implies #[trigger] contains_time(ts, live[j]) by {
            if j < live_rest.len() {
                assert(contains_time(rest, live_rest[j]));
                let w = choose|w: int| 0 <= w < rest.len() && rest[w] == live_rest[j];
                assert(ts[w] == live[j]);
            } else {
                assert(ts[ts.len() - 1] == live[j]);
            }
        }
        if all_at_most(ts, now) {
            assert forall|i: int| 0 <= i < rest.len() implies rest[i] <= now by {
                assert(ts[i] <= now);
            }
        }
    }
}

/// When every recorded timestamp has aged past the window, none is live.
pub proof fn lemma_live_times_all_expired(ts: Seq<u64>, now: u64, window_ms: u64)
    requires
        forall|i: int| 0 <= i < ts.len() ==> now - ts[i] >= window_ms,
    ensures
        live_times(ts, now, window_ms).len() == 0,
    decreases ts.len(),
{
    if ts.len() > 0 {
        let rest = ts.drop_last();
        assert forall|i: int| 0 <= i < rest.len() implies now - rest[i] >= window_ms by {
            assert(now - ts[i] >= window_ms);
        }
        lemma_live_times_all_expired(rest, now, window_ms);
        assert(now - ts.last() >= window_ms);
    }
}

} // verus!
