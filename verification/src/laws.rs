use vstd::prelude::*;

use crate::model::{
    admitted, after_request, after_sweep, lemma_live_times_all_expired, StateView, TableView,
};

verus! {

/// Monotonic admission bound: for a pair with a configured quota whose route
/// has been seen before, an admission check never pushes the recorded count
/// past `max_count` — it appends only while the count is strictly below the
/// maximum, and a denial records nothing.
pub proof fn lemma_admission_bound(
    s: StateView,
    t: TableView,
    key: Seq<char>,
    route: Seq<char>,
    now: u64,
)
    requires
        s.contains_key(key),
        s[key].contains_key(route),
        t.contains_key(route),
        s[key][route].len() <= t[route].max_count,
    ensures
        after_request(s, t, key, route, now).contains_key(key),
        after_request(s, t, key, route, now)[key].contains_key(route),
        after_request(s, t, key, route, now)[key][route].len() <= t[route].max_count,
{
}

/// First touch admits: the very first request from a brand-new identity, and
/// the first request to a brand-new route under an existing identity, is
/// admitted regardless of the configured quota — `max_count == 0` included —
/// and records exactly one timestamp for the pair.
pub proof fn lemma_first_touch_admits(
    s: StateView,
    t: TableView,
    key: Seq<char>,
    route: Seq<char>,
    now: u64,
)
    requires
        !s.contains_key(key) || !s[key].contains_key(route),
    ensures
        admitted(s, t, key, route),
        after_request(s, t, key, route, now).contains_key(key),
        after_request(s, t, key, route, now)[key].contains_key(route),
        after_request(s, t, key, route, now)[key][route] == seq![now],
{
}

/// Expiry frees capacity: when every timestamp recorded for a configured
/// pair has aged past the window, a sweep empties the pair's history, and a
/// subsequent request is admitted — provided `max_count` is at least one —
/// even if the pair had previously reached its limit.
pub proof fn lemma_expiry_frees_capacity(
    s: StateView,
    t: TableView,
    key: Seq<char>,
    route: Seq<char>,
    now: u64,
)
    requires
        s.contains_key(key),
        s[key].contains_key(route),
        t.contains_key(route),
        t[route].max_count >= 1,
        forall|i: int| 0 <= i < s[key][route].len()
            ==> now - s[key][route][i] >= t[route].window_ms,
    ensures
        after_sweep(s, t, now).contains_key(key),
        after_sweep(s, t, now)[key].contains_key(route),
        after_sweep(s, t, now)[key][route].len() == 0,
        admitted(after_sweep(s, t, now), t, key, route),
{
    lemma_live_times_all_expired(s[key][route], now, t[route].window_ms);
}

/// Independent identities: an admission check for one identity neither adds
/// nor changes any other identity's history, and so never changes what would
/// be decided for the other identity on any route.
pub proof fn lemma_independent_identities(
    s: StateView,
    t: TableView,
    key: Seq<char>,
    other: Seq<char>,
    route: Seq<char>,
    other_route: Seq<char>,
    now: u64,
)
    requires
        key != other,
    ensures
        after_request(s, t, key, route, now).contains_key(other) == s.contains_key(other),
        s.contains_key(other) ==> after_request(s, t, key, route, now)[other] == s[other],
        admitted(after_request(s, t, key, route, now), t, other, other_route) == admitted(
            s,
            t,
            other,
            other_route,
        ),
{
}

/// An admission check touches at most the pair it addresses: under the same
/// identity, every other route's history is exactly as before (and under any
/// other identity too, by [`lemma_independent_identities`]). In particular a
/// call appends one timestamp to one history, or none at all.
pub proof fn lemma_untouched_routes(
    s: StateView,
    t: TableView,
    key: Seq<char>,
    route: Seq<char>,
    now: u64,
    other_route: Seq<char>,
)
    requires
        other_route != route,
    ensures
        s.contains_key(key) ==> after_request(s, t, key, route, now)[key].contains_key(other_route)
            == s[key].contains_key(other_route),
        s.contains_key(key) && s[key].contains_key(other_route) ==> after_request(
            s,
            t,
            key,
            route,
            now,
        )[key][other_route] == s[key][other_route],
        !s.contains_key(key) ==> !after_request(s, t, key, route, now)[key].contains_key(
            other_route,
        ),
{
}

/// The sweep removes no identity and no route key — an emptied history
/// stays present, only empty — and leaves every route without a configured
/// quota untouched.
pub proof fn lemma_sweep_frame(s: StateView, t: TableView, now: u64, key: Seq<char>, route: Seq<char>)
    ensures
        after_sweep(s, t, now).contains_key(key) == s.contains_key(key),
        s.contains_key(key) ==> after_sweep(s, t, now)[key].contains_key(route) == s[
            key
        ].contains_key(route),
        s.contains_key(key) && s[key].contains_key(route) && !t.contains_key(route)
            ==> after_sweep(s, t, now)[key][route] == s[key][route],
{
}

/// The state, and the number of admissions, after a run of admission checks
/// for one (identity, route) pair — one check per acquisition of the lock
/// that serialises them, at the given times.
pub open spec fn run_requests(
    s: StateView,
    t: TableView,
    key: Seq<char>,
    route: Seq<char>,
    nows: Seq<u64>,
) -> (StateView, int)
    decreases nows.len(),
{
    if nows.len() == 0 {
        (s, 0)
    } else {
        let rest = run_requests(
            after_request(s, t, key, route, nows.first()),
            t,
            key,
            route,
            nows.drop_first(),
        );
        (rest.0, (if admitted(s, t, key, route) { 1int } else { 0int }) + rest.1)
    }
}

/// A configured pair at or over its limit stays exactly as it is: every
/// further admission check is denied and records nothing.
pub proof fn lemma_at_limit_denies_all(
    s: StateView,
    t: TableView,
    key: Seq<char>,
    route: Seq<char>,
    nows: Seq<u64>,
)
    requires
        s.contains_key(key),
        s[key].contains_key(route),
        t.contains_key(route),
        s[key][route].len() >= t[route].max_count,
    ensures
        run_requests(s, t, key, route, nows).0 == s,
        run_requests(s, t, key, route, nows).1 == 0,
    decreases nows.len(),
{
    if nows.len() > 0 {
        assert(!admitted(s, t, key, route));
        assert(after_request(s, t, key, route, nows.first()) == s);
        lemma_at_limit_denies_all(s, t, key, route, nows.drop_first());
    }
}

/// Concurrent admission safety: the lock totally orders concurrent admission
/// attempts, so they act as one run. For a configured pair one short of its
/// limit, any such run admits exactly the first attempt and denies all the
/// others, whatever the interleaving, and leaves the count at `max_count`.
pub proof fn lemma_concurrent_admissions(
    s: StateView,
    t: TableView,
    key: Seq<char>,
    route: Seq<char>,
    nows: Seq<u64>,
)
    requires
        s.contains_key(key),
        s[key].contains_key(route),
        t.contains_key(route),
        t[route].max_count >= 1,
        s[key][route].len() == t[route].max_count - 1,
        nows.len() >= 1,
    ensures
        run_requests(s, t, key, route, nows).1 == 1,
        run_requests(s, t, key, route, nows).0.contains_key(key),
        run_requests(s, t, key, route, nows).0[key].contains_key(route),
        run_requests(s, t, key, route, nows).0[key][route].len() == t[route].max_count,
{
    assert(admitted(s, t, key, route));
    let s1 = after_request(s, t, key, route, nows.first());
    assert(s1[key][route].len() == t[route].max_count);
    lemma_at_limit_denies_all(s1, t, key, route, nows.drop_first());
}

} // verus!
