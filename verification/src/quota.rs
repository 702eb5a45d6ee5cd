use vstd::prelude::*;

use crate::kv::{
    distinct_keys, find_key, keyed_view, lemma_keyed_view_contains, lemma_keyed_view_index,
    lemma_keyed_view_push, lemma_keyed_view_update,
};

verus! {

/// The quota configured for one route: the sliding window length in
/// milliseconds, and the maximum number of admitted requests within the
/// window. `max_count == 0` is legal and means "never admit once the route
/// has history".
#[derive(Clone, Copy, PartialEq, Eq, Structural, Debug)]
pub struct QuotaEntry {
    pub window_ms: u64,
    pub max_count: usize,
}

impl View for QuotaEntry {
    type V = QuotaEntry;

    open spec fn view(&self) -> QuotaEntry {
        *self
    }
}

/// The table of configured quotas, keyed by route name. Built once before
/// serving begins and read-only afterwards; its abstract value is a map from
/// route name to [`QuotaEntry`].
pub struct QuotaTable {
    entries: Vec<(String, QuotaEntry)>,
}

impl View for QuotaTable {
    type V = Map<Seq<char>, QuotaEntry>;

    closed spec fn view(&self) -> Map<Seq<char>, QuotaEntry> {
        keyed_view(self.entries@)
    }
}

impl QuotaTable {
    /// Route names are stored without duplicates.
    pub closed spec fn wf(&self) -> bool {
        distinct_keys(self.entries@)
    }

    /// An empty table: no route is configured.
    pub fn new() -> (r: QuotaTable)
        ensures
            r.wf(),
            r@ == Map::<Seq<char>, QuotaEntry>::empty(),
    {
        QuotaTable { entries: Vec::new() }
    }

    /// Sets the quota for a route, replacing any earlier entry for it.
    pub fn insert(&mut self, route: String, entry: QuotaEntry)
        requires
            old(self).wf(),
        ensures
            final(self).wf(),
            final(self)@ == old(self)@.insert(route@, entry),
    {
        let ghost route_view = route@;
        let ghost s0 = self.entries@;
        match find_key(&self.entries, &route) {
            Some(i) => {
                self.entries[i] = (route, entry);
                proof {
                    assert(self.entries@ == s0.update(i as int, (self.entries@[i as int].0, entry)));
                    lemma_keyed_view_update(s0, i as int, self.entries@[i as int]);
                    assert forall|a: int, b: int|
                        0 <= a < b < self.entries@.len() implies self.entries@[a].0@
                        != self.entries@[b].0@ by {
                        assert(s0[a].0@ != s0[b].0@);
                    }
                }
            },
            None => {
                self.entries.push((route, entry));
                proof {
                    lemma_keyed_view_push(s0, self.entries@[s0.len() as int]);
                    assert forall|a: int, b: int|
                        0 <= a < b < self.entries@.len() implies self.entries@[a].0@
                        != self.entries@[b].0@ by {
                        if b < s0.len() {
                            assert(s0[a].0@ != s0[b].0@);
                        } else {
                            assert(s0[a].0@ != route_view);
                        }
                    }
                }
            },
        }
    }

    /// Looks up the quota configured for a route.
    pub fn get(&self, route: &String) -> (r: Option<QuotaEntry>)
        requires
            self.wf(),
        ensures
            match r {
                Some(e) => self@.contains_key(route@) && e == self@[route@],
                None => !self@.contains_key(route@),
            },
    {
        match find_key(&self.entries, route) {
            Some(i) => {
                proof {
                    lemma_keyed_view_index(self.entries@, i as int);
                }
                Some(self.entries[i].1)
            },
            None => {
                proof {
                    lemma_keyed_view_contains(self.entries@, route@);
                }
                None
            },
        }
    }
}

} // verus!
