use vstd::prelude::*;

use crate::kv::{
    distinct_keys, find_key, keyed_view, lemma_keyed_view_contains, lemma_keyed_view_index,
    lemma_keyed_view_push, lemma_keyed_view_pointwise, lemma_keyed_view_update,
};
use crate::model::{
    admitted, after_request, after_sweep, all_at_most, lemma_live_times_props, live_times,
    nondecreasing, swept_identity, touch_admits, touched_identity, StateView, TableView,
};
use crate::quota::{QuotaEntry, QuotaTable};

verus! {

/// The request history of one identity: for each route the identity has
/// touched, the timestamps (milliseconds) of its admitted requests, in
/// insertion order. Route entries are created lazily and never removed,
/// only trimmed.
pub struct IdentityState {
    routes: Vec<(String, Vec<u64>)>,
}

impl View for IdentityState {
    type V = Map<Seq<char>, Seq<u64>>;

    closed spec fn view(&self) -> Map<Seq<char>, Seq<u64>> {
        keyed_view(self.routes@)
    }
}

impl IdentityState {
    /// Route names are stored without duplicates, and each history is in
    /// chronological order.
    pub closed spec fn wf(&self) -> bool {
        &&& distinct_keys(self.routes@)
        &&& forall|i: int| 0 <= i < self.routes@.len() ==> nondecreasing(self.routes@[i].1@)
    }

    /// Every recorded timestamp is at or before `now`.
    pub closed spec fn times_le(&self, now: u64) -> bool {
        forall|i: int| 0 <= i < self.routes@.len() ==> all_at_most(self.routes@[i].1@, now)
    }

    /// The history of an identity seen for the first time: one timestamp
    /// under the route it touched.
    fn first_touch(route: String, now: u64) -> (r: IdentityState)
        ensures
            r.wf(),
            r.times_le(now),
            r@ == Map::<Seq<char>, Seq<u64>>::empty().insert(route@, seq![now]),
    {
        let mut ts: Vec<u64> = Vec::new();
        ts.push(now);
        let mut routes: Vec<(String, Vec<u64>)> = Vec::new();
        routes.push((route, ts));
        let r = IdentityState { routes };
        proof {
            lemma_keyed_view_push(Seq::<(String, Vec<u64>)>::empty(), r.routes@[0]);
            assert(Seq::<(String, Vec<u64>)>::empty().push(r.routes@[0]) =~= r.routes@);
            assert(ts@ =~= seq![now]);
        }
        r
    }

    /// One admission check for an identity that already has history (the
    /// caller passes the route's configured quota, if any): admit on the
    /// first touch of the route or when no quota is configured or while the
    /// count is below the maximum; record at most one timestamp.
    fn touch_route(&mut self, route: String, q: Option<QuotaEntry>, now: u64) -> (r: bool)
        requires
            old(self).wf(),
            old(self).times_le(now),
        ensures
            final(self).wf(),
            final(self).times_le(now),
            final(self)@ == touched_identity(old(self)@, q, route@, now),
            r == touch_admits(old(self)@, q, route@),
    {
        let ghost s0 = self.routes@;
        let ghost route_view = route@;
        match find_key(&self.routes, &route) {
            None => {
                proof {
                    lemma_keyed_view_contains(s0, route_view);
                }
                let mut ts: Vec<u64> = Vec::new();
                ts.push(now);
                self.routes.push((route, ts));
                proof {
                    lemma_keyed_view_push(s0, self.routes@[s0.len() as int]);
                    assert(ts@ =~= seq![now]);
                    assert forall|a: int, b: int|
                        0 <= a < b < self.routes@.len() implies self.routes@[a].0@
                        != self.routes@[b].0@ by {
                        if b < s0.len() {
                            assert(s0[a].0@ != s0[b].0@);
                        } else {
                            assert(s0[a].0@ != route_view);
                        }
                    }
                }
                true
            },
            Some(i) => {
                proof {
                    lemma_keyed_view_index(s0, i as int);
                }
                match q {
                    None => true,
                    Some(e) => {
                        if self.routes[i].1.len() < e.max_count {
                            self.routes[i].1.push(now);
                            proof {
                                assert(self.routes@ == s0.update(
                                    i as int,
                                    (s0[i as int].0, self.routes@[i as int].1),
                                ));
                                lemma_keyed_view_update(s0, i as int, self.routes@[i as int]);
                                assert(self.routes@[i as int].1@ == s0[i as int].1@.push(now));
                                assert forall|a: int, b: int|
                                    0 <= a < b < self.routes@.len() implies self.routes@[a].0@
                                    != self.routes@[b].0@ by {
                                    assert(s0[a].0@ != s0[b].0@);
                                }
                                assert forall|a: int|
                                    0 <= a < self.routes@.len()
                                    implies nondecreasing(#[trigger] self.routes@[a].1@)
                                        && all_at_most(self.routes@[a].1@, now) by {
                                    assert(nondecreasing(s0[a].1@));
                                    assert(all_at_most(s0[a].1@, now));
                                    if a == i as int {
                                        let ns = self.routes@[a].1@;
                                        assert forall|x: int, y: int|
                                            0 <= x <= y < ns.len() implies ns[x] <= ns[y] by {
                                            if y < ns.len() - 1 {
                                                assert(s0[a].1@[x] <= s0[a].1@[y]);
                                            } else if x < ns.len() - 1 {
                                                assert(s0[a].1@[x] <= now);
                                            }
                                        }
                                    }
                                }
                            }
                            true
                        } else {
                            false
                        }
                    },
                }
            },
        }
    }

    /// One sweep pass over this identity at time `now`: for each route with
    /// a configured quota, retain only the timestamps whose age is strictly
    /// less than the route's window; leave unconfigured routes untouched.
    fn sweep(&mut self, limits: &QuotaTable, now: u64)
        requires
            limits.wf(),
            old(self).wf(),
            old(self).times_le(now),
        ensures
            final(self).wf(),
            final(self).times_le(now),
            final(self)@ == swept_identity(old(self)@, limits@, now),
    {
        let ghost s0 = self.routes@;
        let mut i: usize = 0;
        while i < self.routes.len()
            invariant
                limits.wf(),
                i <= self.routes@.len(),
                self.routes@.len() == s0.len(),
                forall|j: int| i <= j < s0.len() ==> self.routes@[j] == s0[j],
                forall|j: int| 0 <= j < i ==> (#[trigger] self.routes@[j]).0 == s0[j].0
                    && self.routes@[j].1@ == (if limits@.contains_key(s0[j].0@) {
                        live_times(s0[j].1@, now, limits@[s0[j].0@].window_ms)
                    } else {
                        s0[j].1@
                    }),
                distinct_keys(s0),
                forall|j: int| 0 <= j < s0.len()
                    ==> nondecreasing(#[trigger] s0[j].1@) && all_at_most(s0[j].1@, now),
                forall|j: int| 0 <= j < i ==> nondecreasing((#[trigger] self.routes@[j]).1@)
                    && all_at_most(self.routes@[j].1@, now),
            decreases self.routes@.len() - i,
        {
            proof {
                assert(self.routes@[i as int] == s0[i as int]);
                assert(nondecreasing(s0[i as int].1@));
                assert(all_at_most(s0[i as int].1@, now));
            }
            let q = limits.get(&self.routes[i].0);
            match q {
                Some(e) => {
                    let filtered = retain_live(&self.routes[i].1, now, e.window_ms);
                    proof {
                        lemma_live_times_props(self.routes@[i as int].1@, now, e.window_ms);
                    }
                    self.routes[i].1 = filtered;
                },
                None => {},
            }
            i += 1;
        }
        proof {
            assert forall|a: int, b: int|
                0 <= a < b < self.routes@.len() implies self.routes@[a].0@
                != self.routes@[b].0@ by {
                assert(s0[a].0@ != s0[b].0@);
            }
            lemma_keyed_view_pointwise(
                s0,
                self.routes@,
                |r: Seq<char>, m: Seq<u64>| if limits@.contains_key(r) {
                    live_times(m, now, limits@[r].window_ms)
                } else {
                    m
                },
            );
            assert(keyed_view(self.routes@) =~= swept_identity(keyed_view(s0), limits@, now));
        }
    }
}

/// Why a request or a sweep failed. A denial (`QuotaExceeded`) is
/// recoverable by retrying after the window has slid; an internal failure
/// acquiring the lock or reading the clock (`ClockOrLockFailure`, raised
/// only by the caller that owns the lock and the clock, never by the
/// library itself) is fatal to the single operation but not to the process.
#[derive(Clone, Copy, PartialEq, Eq, Structural, Debug)]
pub enum LimiterError {
    QuotaExceeded,
    ClockOrLockFailure,
}

impl LimiterError {
    /// A short description, as the serving layer reports it.
    pub fn message(&self) -> (r: &'static str)
        ensures
            *self is QuotaExceeded ==> r@ == "API limit reached"@,
            *self is ClockOrLockFailure ==> r@ == "clock or lock failure"@,
    {
        match self {
            LimiterError::QuotaExceeded => "API limit reached",
            LimiterError::ClockOrLockFailure => "clock or lock failure",
        }
    }
}

/// The quota-tracking engine: a quota table fixed at construction, and the
/// mutable per-identity request histories. The caller serialises all calls
/// (one lock around the engine) and passes the current time of a monotonic
/// clock, in milliseconds, so `now` never decreases across calls.
pub struct Limiter {
    limits: QuotaTable,
    map: Vec<(String, IdentityState)>,
}

impl View for Limiter {
    type V = StateView;

    closed spec fn view(&self) -> StateView {
        keyed_view(self.map@)
    }
}

impl Limiter {
    /// The configured quotas, as given at construction.
    pub closed spec fn table(&self) -> TableView {
        self.limits@
    }

    /// Identity names are stored without duplicates; every history is
    /// well-formed; the table is well-formed.
    pub closed spec fn wf(&self) -> bool {
        &&& self.limits.wf()
        &&& distinct_keys(self.map@)
        &&& forall|i: int| 0 <= i < self.map@.len() ==> (#[trigger] self.map@[i]).1.wf()
    }

    /// Every recorded timestamp is at or before `now`. This holds after any
    /// call made at `now`, and is kept for any later time by
    /// [`Self::lemma_times_le_mono`]; a caller on a monotonic clock
    /// therefore always satisfies it.
    pub closed spec fn times_le(&self, now: u64) -> bool {
        forall|i: int| 0 <= i < self.map@.len() ==> (#[trigger] self.map@[i]).1.times_le(now)
    }

    /// `times_le` is monotonic in the clock.
    pub proof fn lemma_times_le_mono(&self, n1: u64, n2: u64)
        requires
            self.times_le(n1),
            n1 <= n2,
        ensures
            self.times_le(n2),
    {
        assert forall|i: int| 0 <= i < self.map@.len()
            implies (#[trigger] self.map@[i]).1.times_le(n2) by {
            assert(self.map@[i].1.times_le(n1));
            assert forall|j: int| 0 <= j < self.map@[i].1.routes@.len()
                implies all_at_most((#[trigger] self.map@[i].1.routes@[j]).1@, n2) by {
                assert(all_at_most(self.map@[i].1.routes@[j].1@, n1));
                assert forall|k: int| 0 <= k < self.map@[i].1.routes@[j].1@.len()
                    implies (#[trigger] self.map@[i].1.routes@[j].1@[k]) <= n2 by {
                    assert(self.map@[i].1.routes@[j].1@[k] <= n1);
                }
            }
        }
    }

    /// An engine with the given quota table and no history.
    pub fn new(limits: QuotaTable) -> (r: Limiter)
        requires
            limits.wf(),
        ensures
            r.wf(),
            forall|n: u64| r.times_le(n),
            r@ == Map::<Seq<char>, Map<Seq<char>, Seq<u64>>>::empty(),
            r.table() == limits@,
    {
        let r = Limiter { limits, map: Vec::new() };
        proof {
            assert(r@ =~= Map::<Seq<char>, Map<Seq<char>, Seq<u64>>>::empty());
        }
        r
    }

    /// One admission check at time `now`, under the lock: the request from
    /// `key` to `route` is admitted — recording at most one timestamp — or
    /// denied with `QuotaExceeded`, exactly as [`admitted`] and
    /// [`after_request`] say.
    pub fn process_request(&mut self, key: &str, route: &str, now: u64) -> (r: Result<
        (),
        LimiterError,
    >)
        requires
            old(self).wf(),
            old(self).times_le(now),
        ensures
            final(self).wf(),
            final(self).times_le(now),
            final(self).table() == old(self).table(),
            final(self)@ == after_request(old(self)@, old(self).table(), key@, route@, now),
            (r is Ok) == admitted(old(self)@, old(self).table(), key@, route@),
            r is Err ==> r == Err::<(), LimiterError>(LimiterError::QuotaExceeded),
    {
        let ghost m0 = self.map@;
        let ghost v0 = self@;
        let ghost t = self.limits@;
        let key_owned = key.to_owned();
        match find_key(&self.map, &key_owned) {
            None => {
                proof {
                    lemma_keyed_view_contains(m0, key@);
                    assert(!v0.contains_key(key@));
                }
                let st = IdentityState::first_touch(route.to_owned(), now);
                self.map.push((key_owned, st));
                proof {
                    lemma_keyed_view_push(m0, self.map@[m0.len() as int]);
                    assert(self@ == v0.insert(
                        key@,
                        Map::<Seq<char>, Seq<u64>>::empty().insert(route@, seq![now]),
                    ));
                    assert forall|a: int, b: int|
                        0 <= a < b < self.map@.len() implies self.map@[a].0@
                        != self.map@[b].0@ by {
                        if b < m0.len() {
                            assert(m0[a].0@ != m0[b].0@);
                        } else {
                            assert(m0[a].0@ != key@);
                        }
                    }
                    assert forall|a: int|
                        0 <= a < self.map@.len() implies (#[trigger] self.map@[a]).1.wf()
                        && self.map@[a].1.times_le(now) by {
                        if a < m0.len() {
                            assert(m0[a].1.wf() && m0[a].1.times_le(now));
                        }
                    }
                }
                Ok(())
            },
            Some(i) => {
                proof {
                    lemma_keyed_view_index(m0, i as int);
                    assert(v0.contains_key(key@));
                    assert(v0[key@] == m0[i as int].1@);
                }
                let route_owned = route.to_owned();
                let q = self.limits.get(&route_owned);
                let adm = self.map[i].1.touch_route(route_owned, q, now);
                proof {
                    let id0 = m0[i as int].1@;
                    let id1 = self.map@[i as int].1@;
                    assert(self.map@ == m0.update(i as int, (m0[i as int].0, self.map@[i as int].1)));
                    lemma_keyed_view_update(m0, i as int, self.map@[i as int]);
                    assert(id1 == touched_identity(id0, q, route@, now));
                    assert(self@ == v0.insert(key@, id1));
                    if !id0.contains_key(route@) {
                        assert(self@ == after_request(v0, t, key@, route@, now));
                    } else if q is None {
                        assert(!t.contains_key(route@));
                        assert(id1 == id0);
                        assert(v0.insert(key@, id0) =~= v0);
                    } else if id0[route@].len() < t[route@].max_count {
                        assert(self@ == after_request(v0, t, key@, route@, now));
                    } else {
                        assert(id1 == id0);
                        assert(v0.insert(key@, id0) =~= v0);
                    }
                    assert(adm == admitted(v0, t, key@, route@));
                    assert forall|a: int, b: int|
                        0 <= a < b < self.map@.len() implies self.map@[a].0@
                        != self.map@[b].0@ by {
                        assert(m0[a].0@ != m0[b].0@);
                    }
                    assert forall|a: int|
                        0 <= a < self.map@.len() implies (#[trigger] self.map@[a]).1.wf()
                        && self.map@[a].1.times_le(now) by {
                        if a != i as int {
                            assert(m0[a].1.wf() && m0[a].1.times_le(now));
                        }
                    }
                }
                if adm {
                    Ok(())
                } else {
                    Err(LimiterError::QuotaExceeded)
                }
            },
        }
    }

    /// One expiry sweep at time `now`, under the lock: for every identity
    /// and every route with a configured quota, discard the timestamps whose
    /// age has reached the window, exactly as [`after_sweep`] says. No
    /// identity or route key is removed.
    pub fn expire_limits(&mut self, now: u64) -> (r: Result<(), LimiterError>)
        requires
            old(self).wf(),
            old(self).times_le(now),
        ensures
            final(self).wf(),
            final(self).times_le(now),
            final(self).table() == old(self).table(),
            final(self)@ == after_sweep(old(self)@, old(self).table(), now),
            r == Ok::<(), LimiterError>(()),
    {
        let ghost m0 = self.map@;
        let ghost lim0 = self.limits;
        let mut i: usize = 0;
        while i < self.map.len()
            invariant
                i <= self.map@.len(),
                self.map@.len() == m0.len(),
                self.limits == lim0,
                self.limits.wf(),
                forall|j: int| i <= j < m0.len() ==> self.map@[j] == m0[j],
                forall|j: int| 0 <= j < i ==> (#[trigger] self.map@[j]).0 == m0[j].0
                    && self.map@[j].1@ == swept_identity(m0[j].1@, lim0@, now)
                    && self.map@[j].1.wf() && self.map@[j].1.times_le(now),
                distinct_keys(m0),
                forall|j: int| 0 <= j < m0.len() ==> (#[trigger] m0[j]).1.wf()
                    && m0[j].1.times_le(now),
            decreases self.map@.len() - i,
        {
            proof {
                assert(self.map@[i as int] == m0[i as int]);
                assert(m0[i as int].1.wf() && m0[i as int].1.times_le(now));
            }
            self.map[i].1.sweep(&self.limits, now);
            i += 1;
        }
        proof {
            assert forall|a: int, b: int|
                0 <= a < b < self.map@.len() implies self.map@[a].0@ != self.map@[b].0@ by {
                assert(m0[a].0@ != m0[b].0@);
            }
            lemma_keyed_view_pointwise(
                m0,
                self.map@,
                |k: Seq<char>, m: Map<Seq<char>, Seq<u64>>| swept_identity(m, lim0@, now),
            );
            assert(self@ =~= after_sweep(old(self)@, old(self).table(), now));
        }
        Ok(())
    }
}

/// Builds the timestamps of `ts` whose age at `now` is strictly less than
/// `window_ms`, in their original order.
fn retain_live(ts: &Vec<u64>, now: u64, window_ms: u64) -> (r: Vec<u64>)
    requires
        all_at_most(ts@, now),
    ensures
        r@ == live_times(ts@, now, window_ms),
{
    let mut out: Vec<u64> = Vec::new();
    let mut i: usize = 0;
    while i < ts.len()
        invariant
            i <= ts@.len(),
            all_at_most(ts@, now),
            out@ == live_times(ts@.take(i as int), now, window_ms),
        decreases ts@.len() - i,
    {
        let t: u64 = ts[i];
        proof {
            assert(ts@[i as int] <= now);
            assert(ts@.take(i as int + 1).drop_last() =~= ts@.take(i as int));
            assert(ts@.take(i as int + 1).last() == ts@[i as int]);
        }
        if now - t < window_ms {
            out.push(t);
        }
        i += 1;
    }
    proof {
        assert(ts@.take(ts@.len() as int) =~= ts@);
    }
    out
}

} // verus!
