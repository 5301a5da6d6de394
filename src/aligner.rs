use vstd::prelude::*;

use crate::addr_map::AddrMap;
use crate::blacklist::Blacklist;
use crate::endpoint::Endpoint;
use crate::random::sample_one;

verus! {

/// The use counts after a snapshot change: `added` endpoints that were not
/// known start at zero, known ones keep their count, `removed` ones leave.
pub open spec fn after_update(m: Map<Endpoint, u64>, added: Seq<Endpoint>, removed: Seq<Endpoint>) -> Map<Endpoint, u64> {
    Map::new(
        |a: Endpoint| !removed.contains(a) && (m.contains_key(a) || added.contains(a)),
        |a: Endpoint| if m.contains_key(a) { m[a] } else { 0 },
    )
}

/// `a` may be handed out: it is known, not blacklisted, and below `limit`.
pub open spec fn eligible(m: Map<Endpoint, u64>, failing: Map<Endpoint, u64>, limit: u32, a: Endpoint) -> bool {
    &&& m.contains_key(a)
    &&& !failing.contains_key(a)
    &&& m[a] < limit
}

/// `a` is eligible and no endpoint that is not blacklisted has a smaller count.
pub open spec fn is_fair_pick(m: Map<Endpoint, u64>, failing: Map<Endpoint, u64>, limit: u32, a: Endpoint) -> bool {
    &&& eligible(m, failing, limit, a)
    &&& forall|b: Endpoint| #[trigger] m.contains_key(b) && !failing.contains_key(b) ==> m[a] <= m[b]
}

/// Some endpoint may be handed out.
pub open spec fn any_eligible(m: Map<Endpoint, u64>, failing: Map<Endpoint, u64>, limit: u32) -> bool {
    exists|a: Endpoint| eligible(m, failing, limit, a)
}

/// The use counts after handing out `a`.
pub open spec fn after_get(m: Map<Endpoint, u64>, a: Endpoint) -> Map<Endpoint, u64> {
    m.insert(a, (m[a] + 1) as u64)
}

/// The use counts after a connection to `a` ends: a positive count of a
/// known endpoint drops by one, anything else stays.
pub open spec fn after_put(m: Map<Endpoint, u64>, a: Endpoint) -> Map<Endpoint, u64> {
    if m.contains_key(a) && m[a] > 0 {
        m.insert(a, (m[a] - 1) as u64)
    } else {
        m
    }
}

/// Hands out endpoints of the current snapshot so that the number of
/// connections (and attempts) per endpoint stays level.
pub struct Aligner {
    counts: AddrMap,
}

impl View for Aligner {
    type V = Map<Endpoint, u64>;

    closed spec fn view(&self) -> Map<Endpoint, u64> {
        self.counts@
    }
}

impl Aligner {
    pub closed spec fn wf(&self) -> bool {
        self.counts.wf()
    }

    pub fn new() -> (r: Aligner)
        ensures
            r.wf(),
            r@ == Map::<Endpoint, u64>::empty(),
    {
        Aligner { counts: AddrMap::new() }
    }

    /// Apply a snapshot change: `added` endpoints are known from now on (new
    /// ones at count zero), `removed` ones are forgotten.
    pub fn update(&mut self, added: Vec<Endpoint>, removed: Vec<Endpoint>)
        requires
            old(self).wf(),
        ensures
            final(self).wf(),
            final(self)@ == after_update(old(self)@, added@, removed@),
    {
        let ghost m0 = self.counts@;
        let mut i: usize = 0;
        while i < added.len()
            invariant
                self.counts.wf(),
                i <= added@.len(),
                forall|a: Endpoint| #[trigger] self.counts@.contains_key(a) <==>
                    (m0.contains_key(a) || exists|q: int| 0 <= q < i && added@[q] == a),
                forall|a: Endpoint| #[trigger] self.counts@.contains_key(a) ==>
                    self.counts@[a] == (if m0.contains_key(a) { m0[a] } else { 0 }),
            decreases added@.len() - i,
        {
            let a = added[i];
            if self.counts.find(a).is_none() {
                self.counts.insert(a, 0);
            }
            proof {
                assert forall|b: Endpoint| #[trigger] self.counts@.contains_key(b) <==>
                    (m0.contains_key(b) || exists|q: int| 0 <= q < i + 1 && added@[q] == b) by {
                    if b == a {
                        assert(added@[i as int] == b);
                    }
                    if exists|q: int| 0 <= q < i + 1 && added@[q] == b {
                        let q = choose|q: int| 0 <= q < i + 1 && added@[q] == b;
                        if q < i {
                            assert(exists|q: int| 0 <= q < i && added@[q] == b);
                        }
                    }
                }
            }
            i = i + 1;
        }
        let ghost m1 = self.counts@;
        let mut k: usize = 0;
        while k < removed.len()
            invariant
                self.counts.wf(),
                k <= removed@.len(),
                forall|a: Endpoint| #[trigger] self.counts@.contains_key(a) <==>
                    (m1.contains_key(a) && !exists|q: int| 0 <= q < k && removed@[q] == a),
                forall|a: Endpoint| #[trigger] self.counts@.contains_key(a) ==> self.counts@[a] == m1[a],
            decreases removed@.len() - k,
        {
            let a = removed[k];
            self.counts.remove(a);
            proof {
                assert forall|b: Endpoint| #[trigger] self.counts@.contains_key(b) <==>
                    (m1.contains_key(b) && !exists|q: int| 0 <= q < k + 1 && removed@[q] == b) by {
                    if b == a {
                        assert(removed@[k as int] == b);
                    }
                    if exists|q: int| 0 <= q < k + 1 && removed@[q] == b {
                        let q = choose|q: int| 0 <= q < k + 1 && removed@[q] == b;
                        if q < k {
                            assert(exists|q: int| 0 <= q < k && removed@[q] == b);
                        }
                    }
                }
            }
            k = k + 1;
        }
        proof {
            let goal = after_update(m0, added@, removed@);
            assert forall|a: Endpoint| #[trigger] self.counts@.contains_key(a) <==> goal.contains_key(a) by {
                if added@.contains(a) {
                    let q = choose|q: int| 0 <= q < added@.len() && added@[q] == a;
                    assert(m1.contains_key(a));
                }
                if m1.contains_key(a) && !m0.contains_key(a) {
                    let q = choose|q: int| 0 <= q < i && added@[q] == a;
                    assert(added@.contains(a));
                }
                if removed@.contains(a) {
                    let q = choose|q: int| 0 <= q < removed@.len() && removed@[q] == a;
                    assert(exists|q: int| 0 <= q < k && removed@[q] == a);
                }
                if exists|q: int| 0 <= q < k && removed@[q] == a {
                    let q = choose|q: int| 0 <= q < k && removed@[q] == a;
                    assert(removed@.contains(a));
                }
            }
            assert(self.counts@ =~= goal);
        }
    }

    /// Hand out an endpoint that is not blacklisted and whose count is the
    /// smallest among those, provided that count is below `limit`; ties are
    /// broken at random. The count of the endpoint handed out goes up by one.
    pub fn get(&mut self, limit: u32, blist: &Blacklist) -> (r: Option<Endpoint>)
        requires
            old(self).wf(),
            blist.wf(),
        ensures
            final(self).wf(),
            r.is_none() <==> !any_eligible(old(self)@, blist@, limit),
            r.is_none() ==> final(self)@ == old(self)@,
            r matches Some(a) ==> is_fair_pick(old(self)@, blist@, limit, a)
                && final(self)@ == after_get(old(self)@, a),
    {
        let n = self.counts.len();
        let mut best: Option<u64> = None;
        let mut i: usize = 0;
        while i < n
            invariant
                self.counts.wf(),
                blist.wf(),
                n == self.counts.keys@.len(),
                i <= n,
                best.is_none() ==> forall|j: int| 0 <= j < i ==> blist@.contains_key(#[trigger] self.counts.keys@[j]),
                best matches Some(m) ==> {
                    &&& exists|j: int| 0 <= j < i && !blist@.contains_key(#[trigger] self.counts.keys@[j]) && self.counts.vals@[j] == m
                    &&& forall|j: int| 0 <= j < i && !blist@.contains_key(#[trigger] self.counts.keys@[j]) ==> m <= self.counts.vals@[j]
                },
            decreases n - i,
        {
            if !blist.is_failing(self.counts.keys[i]) {
                let c = self.counts.vals[i];
                match best {
                    None => {
                        best = Some(c);
                    },
                    Some(m) => {
                        if c < m {
                            best = Some(c);
                        }
                    },
                }
            }
            i = i + 1;
        }
        let m = match best {
            None => {
                proof {
                    assert forall|a: Endpoint| !eligible(self.counts@, blist@, limit, a) by {
                        if self.counts@.contains_key(a) {
                            assert(self.counts.keys@.contains(a));
                        }
                    }
                }
                return None;
            },
            Some(m) => m,
        };
        if m >= limit as u64 {
            proof {
                assert forall|a: Endpoint| !eligible(self.counts@, blist@, limit, a) by {
                    if self.counts@.contains_key(a) && !blist@.contains_key(a) {
                        assert(self.counts.keys@.contains(a));
                        let k = choose|k: int| 0 <= k < n && self.counts.keys@[k] == a;
                        assert(m <= self.counts.vals@[k]);
                    }
                }
            }
            return None;
        }
        let mut cands: Vec<usize> = Vec::new();
        let mut k: usize = 0;
        while k < n
            invariant
                self.counts.wf(),
                blist.wf(),
                n == self.counts.keys@.len(),
                k <= n,
                forall|q: int| 0 <= q < cands@.len() ==> {
                    &&& #[trigger] cands@[q] < n
                    &&& !blist@.contains_key(self.counts.keys@[cands@[q] as int])
                    &&& self.counts.vals@[cands@[q] as int] == m
                },
                (exists|j: int| 0 <= j < k && !blist@.contains_key(#[trigger] self.counts.keys@[j]) && self.counts.vals@[j] == m)
                    ==> cands@.len() > 0,
            decreases n - k,
        {
            if !blist.is_failing(self.counts.keys[k]) && self.counts.vals[k] == m {
                cands.push(k);
            }
            k = k + 1;
        }
        match sample_one(&cands) {
            None => None,
            Some(j) => {
                let a = self.counts.keys[j];
                proof {
                    let q = choose|q: int| 0 <= q < cands@.len() && cands@[q] == j;
                    assert(cands@[q] < n);
                    assert forall|b: Endpoint| #[trigger] self.counts@.contains_key(b) && !blist@.contains_key(b)
                        implies self.counts@[a] <= self.counts@[b] by {
                        assert(self.counts.keys@.contains(b));
                        let t = choose|t: int| 0 <= t < n && self.counts.keys@[t] == b;
                        assert(m <= self.counts.vals@[t]);
                    }
                    assert(eligible(self.counts@, blist@, limit, a));
                }
                self.counts.set_at(j, m + 1);
                Some(a)
            },
        }
    }

    /// A connection (or attempt) to `a` has ended: its count drops by one.
    pub fn put(&mut self, a: Endpoint)
        requires
            old(self).wf(),
        ensures
            final(self).wf(),
            final(self)@ == after_put(old(self)@, a),
    {
        match self.counts.find(a) {
            Some(i) => {
                let c = self.counts.vals[i];
                if c > 0 {
                    self.counts.set_at(i, c - 1);
                }
            },
            None => {},
        }
    }

    /// The use count of `a`, if it is known.
    pub fn count(&self, a: Endpoint) -> (r: Option<u64>)
        requires
            self.wf(),
        ensures
            r == (if self@.contains_key(a) { Some(self@[a]) } else { None::<u64> }),
    {
        self.counts.get(a)
    }
}

} // verus!

verus! {

/// Applying the same snapshot change twice in a row changes nothing the
/// second time: use counts stay as the first update left them.
pub proof fn lemma_update_idempotent(m: Map<Endpoint, u64>, added: Seq<Endpoint>, removed: Seq<Endpoint>)
    ensures
        after_update(after_update(m, added, removed), added, removed) == after_update(m, added, removed),
{
    assert(after_update(after_update(m, added, removed), added, removed) =~= after_update(m, added, removed));
}

} // verus!
