use vstd::prelude::*;

use crate::addr_map::AddrMap;
use crate::endpoint::Endpoint;

verus! {

/// What blacklisting `a` until `expiry` does to the map of penalties.
pub open spec fn after_blacklist(m: Map<Endpoint, u64>, a: Endpoint, expiry: u64) -> Map<Endpoint, u64> {
    m.insert(a, expiry)
}

/// An entry has expired at `now` once its expiry is not later than `now`.
pub open spec fn expired(m: Map<Endpoint, u64>, a: Endpoint, now: u64) -> bool {
    m.contains_key(a) && m[a] <= now
}

/// The penalties that remain after expiring everything due at `now`.
pub open spec fn after_expire(m: Map<Endpoint, u64>, now: u64) -> Map<Endpoint, u64> {
    Map::new(|a: Endpoint| m.contains_key(a) && m[a] > now, |a: Endpoint| m[a])
}

/// Endpoints under a connect penalty, each with the instant (in
/// milliseconds) at which its penalty ends.
pub struct Blacklist {
    entries: AddrMap,
}

impl View for Blacklist {
    type V = Map<Endpoint, u64>;

    closed spec fn view(&self) -> Map<Endpoint, u64> {
        self.entries@
    }
}

impl Blacklist {
    pub closed spec fn wf(&self) -> bool {
        self.entries.wf()
    }

    pub fn new() -> (r: Blacklist)
        ensures
            r.wf(),
            r@ == Map::<Endpoint, u64>::empty(),
    {
        Blacklist { entries: AddrMap::new() }
    }

    /// Put `a` under penalty until `expiry`, replacing any earlier expiry.
    pub fn blacklist(&mut self, a: Endpoint, expiry: u64)
        requires
            old(self).wf(),
        ensures
            final(self).wf(),
            final(self)@ == after_blacklist(old(self)@, a, expiry),
    {
        self.entries.insert(a, expiry);
    }

    pub fn is_failing(&self, a: Endpoint) -> (r: bool)
        requires
            self.wf(),
        ensures
            r == self@.contains_key(a),
    {
        self.entries.find(a).is_some()
    }

    /// The instant at which the penalty of `a` ends, if it has one.
    pub fn expiry(&self, a: Endpoint) -> (r: Option<u64>)
        requires
            self.wf(),
        ensures
            r == (if self@.contains_key(a) { Some(self@[a]) } else { None::<u64> }),
    {
        self.entries.get(a)
    }

    pub fn is_empty(&self) -> (r: bool)
        requires
            self.wf(),
        ensures
            r <==> forall|a: Endpoint| !self@.contains_key(a),
    {
        proof {
            if self.entries.keys@.len() > 0 {
                assert(self@.contains_key(self.entries.keys@[0]));
            } else {
                assert forall|a: Endpoint| !self@.contains_key(a) by {
                    if self.entries.map@.contains_key(a) {
                        assert(self.entries.keys@.contains(a));
                    }
                }
            }
        }
        self.entries.len() == 0
    }

    /// The earliest expiry under penalty, if any: the instant at which the
    /// next entry becomes available again.
    pub fn next_expiry(&self) -> (r: Option<u64>)
        requires
            self.wf(),
        ensures
            r.is_none() <==> forall|a: Endpoint| !self@.contains_key(a),
            r matches Some(t) ==> {
                &&& exists|a: Endpoint| #[trigger] self@.contains_key(a) && self@[a] == t
                &&& forall|a: Endpoint| #[trigger] self@.contains_key(a) ==> t <= self@[a]
            },
    {
        let n = self.entries.len();
        if n == 0 {
            proof {
                assert forall|a: Endpoint| !self.entries.map@.contains_key(a) by {
                    if self.entries.map@.contains_key(a) {
                        assert(self.entries.keys@.contains(a));
                    }
                }
            }
            return None;
        }
        let mut best: u64 = self.entries.vals[0];
        let mut i: usize = 1;
        while i < n
            invariant
                self.wf(),
                n == self.entries.keys@.len(),
                1 <= i <= n,
                exists|j: int| 0 <= j < i && self.entries.vals@[j] == best,
                forall|j: int| 0 <= j < i ==> best <= self.entries.vals@[j],
            decreases n - i,
        {
            if self.entries.vals[i] < best {
                best = self.entries.vals[i];
            }
            i = i + 1;
        }
        proof {
            let j = choose|j: int| 0 <= j < i && self.entries.vals@[j] == best;
            let w = self.entries.keys@[j];
            assert(self.entries.map@.contains_key(w) && self.entries.map@[w] == best);
            assert(self@.contains_key(w) && self@[w] == best);
            assert forall|a: Endpoint| #[trigger] self@.contains_key(a) implies best <= self@[a] by {
                assert(self.entries.keys@.contains(a));
                let k = choose|k: int| 0 <= k < self.entries.keys@.len() && self.entries.keys@[k] == a;
                assert(self.entries.vals@[k] >= best);
            }
        }
        Some(best)
    }

    /// Lift every penalty whose expiry is not later than `now`, and return
    /// the endpoints that became available, each once.
    pub fn poll(&mut self, now: u64) -> (r: Vec<Endpoint>)
        requires
            old(self).wf(),
        ensures
            final(self).wf(),
            final(self)@ == after_expire(old(self)@, now),
            forall|a: Endpoint| r@.contains(a) <==> expired(old(self)@, a, now),
            r@.no_duplicates(),
    {
        let mut out: Vec<Endpoint> = Vec::new();
        let n = self.entries.len();
        let mut i: usize = 0;
        while i < n
            invariant
                self.wf(),
                n == self.entries.keys@.len(),
                i <= n,
                out@.no_duplicates(),
                forall|a: Endpoint|
                    out@.contains(a) <==> exists|j: int|
                        0 <= j < i && #[trigger] self.entries.keys@[j] == a && self.entries.vals@[j] <= now,
            decreases n - i,
        {
            if self.entries.vals[i] <= now {
                let a = self.entries.keys[i];
                proof {
                    if out@.contains(a) {
                        let j = choose|j: int| 0 <= j < i && #[trigger] self.entries.keys@[j] == a && self.entries.vals@[j] <= now;
                        assert(self.entries.keys@[j] != self.entries.keys@[i as int]);
                    }
                }
                let ghost prev = out@;
                out.push(a);
                proof {
                    assert forall|b: Endpoint|
                        out@.contains(b) <==> exists|j: int|
                            0 <= j < i + 1 && #[trigger] self.entries.keys@[j] == b && self.entries.vals@[j] <= now by {
                        if out@.contains(b) && b != a {
                            let k = choose|k: int| 0 <= k < out@.len() && out@[k] == b;
                            assert(out@.subrange(0, out@.len() - 1 as int)[k] == b);
                            assert(prev.contains(b)) by {
                                assert(out@.drop_last() =~= prev);
                            };
                        }
                        if exists|j: int| 0 <= j < i + 1 && #[trigger] self.entries.keys@[j] == b && self.entries.vals@[j] <= now {
                            if b != a {
                                let j = choose|j: int| 0 <= j < i + 1 && #[trigger] self.entries.keys@[j] == b && self.entries.vals@[j] <= now;
                                assert(j < i);
                                assert(prev.contains(b));
                                let k = choose|k: int| 0 <= k < prev.len() && prev[k] == b;
                                assert(out@[k] == b);
                            } else {
                                assert(out@[out@.len() - 1] == b);
                            }
                        }
                    }
                }
            }
            i = i + 1;
        }
        let ghost m0 = self.entries.map@;
        proof {
            assert forall|a: Endpoint| out@.contains(a) <==> expired(m0, a, now) by {
                if expired(m0, a, now) {
                    let k = choose|k: int| 0 <= k < self.entries.keys@.len() && self.entries.keys@[k] == a;
                    assert(self.entries.keys@[k] == a);
                }
                if out@.contains(a) {
                    let j = choose|j: int| 0 <= j < i && #[trigger] self.entries.keys@[j] == a && self.entries.vals@[j] <= now;
                }
            }
        }
        let mut k: usize = 0;
        while k < out.len()
            invariant
                self.wf(),
                k <= out@.len(),
                forall|a: Endpoint| out@.contains(a) <==> expired(m0, a, now),
                forall|a: Endpoint| #[trigger] self.entries.map@.contains_key(a) <==>
                    (m0.contains_key(a) && !(exists|q: int| 0 <= q < k && out@[q] == a)),
                forall|a: Endpoint| #[trigger] self.entries.map@.contains_key(a) ==> self.entries.map@[a] == m0[a],
            decreases out@.len() - k,
        {
            let a = out[k];
            self.entries.remove(a);
            proof {
                assert forall|b: Endpoint| #[trigger] self.entries.map@.contains_key(b) <==>
                    (m0.contains_key(b) && !(exists|q: int| 0 <= q < k + 1 && out@[q] == b)) by {
                    if exists|q: int| 0 <= q < k + 1 && out@[q] == b {
                        let q = choose|q: int| 0 <= q < k + 1 && out@[q] == b;
                        if q < k {
                            assert(exists|q: int| 0 <= q < k && out@[q] == b);
                        }
                    }
                    if b == a {
                        assert(out@[k as int] == b);
                    }
                }
            }
            k = k + 1;
        }
        proof {
            assert forall|a: Endpoint| #[trigger] out@.contains(a) implies (exists|q: int| 0 <= q < k && out@[q] == a) by {
                let q = choose|q: int| 0 <= q < out@.len() && out@[q] == a;
            }
            assert forall|a: Endpoint| #[trigger] self.entries.map@.contains_key(a)
                <==> after_expire(m0, now).contains_key(a) by {
                if m0.contains_key(a) && m0[a] <= now {
                    assert(expired(m0, a, now));
                    assert(out@.contains(a));
                }
                if exists|q: int| 0 <= q < k && out@[q] == a {
                    let q = choose|q: int| 0 <= q < k && out@[q] == a;
                    assert(out@.contains(a));
                }
            }
            assert(self.entries.map@ =~= after_expire(m0, now));
        }
        out
    }
}

} // verus!

verus! {

/// Blacklisting an endpoint that is already blacklisted replaces its
/// expiry: two penalties in a row leave the second one alone.
pub proof fn lemma_blacklist_replaces(m: Map<Endpoint, u64>, a: Endpoint, first: u64, second: u64)
    ensures
        after_blacklist(after_blacklist(m, a, first), a, second) == after_blacklist(m, a, second),
        after_blacklist(after_blacklist(m, a, first), a, second)[a] == second,
{
    assert(after_blacklist(after_blacklist(m, a, first), a, second) =~= after_blacklist(m, a, second));
}

/// Whether an endpoint is failing only turns from false to true by
/// blacklisting it, and only from true to false by expiring it: blacklisting
/// never lifts a penalty, and expiring never adds one.
pub proof fn lemma_failing_monotone(m: Map<Endpoint, u64>, a: Endpoint, expiry: u64, b: Endpoint, now: u64)
    ensures
        m.contains_key(b) ==> after_blacklist(m, a, expiry).contains_key(b),
        after_blacklist(m, a, expiry).contains_key(b) ==> m.contains_key(b) || b == a,
        after_expire(m, now).contains_key(b) ==> m.contains_key(b),
        m.contains_key(b) && !after_expire(m, now).contains_key(b) ==> expired(m, b, now),
{
}

} // verus!
