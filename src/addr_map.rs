use vstd::prelude::*;

use crate::endpoint::Endpoint;

verus! {

/// A small association list from endpoints to integers, kept as two
/// parallel vectors with unique keys.
pub struct AddrMap {
    pub keys: Vec<Endpoint>,
    pub vals: Vec<u64>,
    pub map: Ghost<Map<Endpoint, u64>>,
}

impl View for AddrMap {
    type V = Map<Endpoint, u64>;

    open spec fn view(&self) -> Map<Endpoint, u64> {
        self.map@
    }
}

impl AddrMap {
    pub open spec fn wf(&self) -> bool {
        &&& self.keys@.len() == self.vals@.len()
        &&& forall|i: int, j: int|
            0 <= i < j < self.keys@.len() ==> #[trigger] self.keys@[i] != #[trigger] self.keys@[j]
        &&& forall|i: int|
            0 <= i < self.keys@.len() ==> {
                &&& self.map@.contains_key(#[trigger] self.keys@[i])
                &&& self.map@[self.keys@[i]] == self.vals@[i]
            }
        &&& forall|a: Endpoint| #[trigger] self.map@.contains_key(a) ==> self.keys@.contains(a)
    }

    pub fn new() -> (r: AddrMap)
        ensures
            r.wf(),
            r@ == Map::<Endpoint, u64>::empty(),
    {
        AddrMap { keys: Vec::new(), vals: Vec::new(), map: Ghost(Map::empty()) }
    }

    pub fn len(&self) -> (r: usize)
        requires
            self.wf(),
        ensures
            r == self.keys@.len(),
    {
        self.keys.len()
    }

    /// The position of `a`, if it is a key.
    pub fn find(&self, a: Endpoint) -> (r: Option<usize>)
        requires
            self.wf(),
        ensures
            r.is_none() <==> !self@.contains_key(a),
            r matches Some(i) ==> i < self.keys@.len() && self.keys@[i as int] == a,
    {
        let mut i: usize = 0;
        while i < self.keys.len()
            invariant
                self.wf(),
                i <= self.keys@.len(),
                forall|j: int| 0 <= j < i ==> self.keys@[j] != a,
            decreases self.keys@.len() - i,
        {
            if self.keys[i] == a {
                return Some(i);
            }
            i = i + 1;
        }
        proof {
            if self@.contains_key(a) {
                let k = choose|k: int| 0 <= k < self.keys@.len() && self.keys@[k] == a;
                assert(self.keys@[k] == a);
            }
        }
        None
    }

    pub fn get(&self, a: Endpoint) -> (r: Option<u64>)
        requires
            self.wf(),
        ensures
            r == (if self@.contains_key(a) { Some(self@[a]) } else { None::<u64> }),
    {
        match self.find(a) {
            Some(i) => Some(self.vals[i]),
            None => None,
        }
    }

    /// Overwrite the value at position `i`.
    pub fn set_at(&mut self, i: usize, v: u64)
        requires
            old(self).wf(),
            i < old(self).keys@.len(),
        ensures
            final(self).wf(),
            final(self).keys@ == old(self).keys@,
            final(self)@ == old(self)@.insert(old(self).keys@[i as int], v),
    {
        let ghost k = self.keys@[i as int];
        self.vals.set(i, v);
        self.map = Ghost(self.map@.insert(k, v));
        proof {
            assert forall|a: Endpoint| #[trigger] self.map@.contains_key(a) implies self.keys@.contains(a) by {
                if a != k {
                    assert(old(self).map@.contains_key(a));
                }
                else {
                    assert(self.keys@[i as int] == a);
                }
            }
        }
    }

    pub fn insert(&mut self, a: Endpoint, v: u64)
        requires
            old(self).wf(),
        ensures
            final(self).wf(),
            final(self)@ == old(self)@.insert(a, v),
    {
        match self.find(a) {
            Some(i) => {
                self.set_at(i, v);
            },
            None => {
                self.keys.push(a);
                self.vals.push(v);
                self.map = Ghost(self.map@.insert(a, v));
                proof {
                    let n = self.keys@.len() - 1;
                    assert(self.keys@[n] == a);
                    assert forall|b: Endpoint| #[trigger] self.map@.contains_key(b) implies self.keys@.contains(b) by {
                        if b != a {
                            assert(old(self).map@.contains_key(b));
                            let k = choose|k: int| 0 <= k < old(self).keys@.len() && old(self).keys@[k] == b;
                            assert(self.keys@[k] == b);
                        }
                    }
                    assert forall|x: int, y: int|
                        0 <= x < y < self.keys@.len() implies #[trigger] self.keys@[x] != #[trigger] self.keys@[y] by {
                        if y == n {
                            assert(old(self).map@.contains_key(old(self).keys@[x]));
                        }
                    }
                }
            },
        }
    }

    pub fn remove(&mut self, a: Endpoint)
        requires
            old(self).wf(),
        ensures
            final(self).wf(),
            final(self)@ == old(self)@.remove(a),
    {
        match self.find(a) {
            Some(i) => {
                let ghost ok = self.keys@;
                let ghost ov = self.vals@;
                let ghost last = (ok.len() - 1) as int;
                self.keys.swap_remove(i);
                self.vals.swap_remove(i);
                self.map = Ghost(self.map@.remove(a));
                proof {
                    assert forall|j: int| 0 <= j < self.keys@.len() implies
                        self.keys@[j] == (if j == i { ok[last] } else { ok[j] })
                        && self.vals@[j] == (if j == i { ov[last] } else { ov[j] }) by {}
                    assert forall|x: int, y: int|
                        0 <= x < y < self.keys@.len() implies #[trigger] self.keys@[x] != #[trigger] self.keys@[y] by {
                        let ox = if x == i { last } else { x };
                        let oy = if y == i { last } else { y };
                        assert(ok[ox] != ok[oy]);
                    }
                    assert forall|j: int| 0 <= j < self.keys@.len() implies {
                        &&& self.map@.contains_key(#[trigger] self.keys@[j])
                        &&& self.map@[self.keys@[j]] == self.vals@[j]
                    } by {
                        let oj = if j == i { last } else { j };
                        assert(ok[oj] != ok[i as int]);
                    }
                    assert forall|b: Endpoint| #[trigger] self.map@.contains_key(b) implies self.keys@.contains(b) by {
                        let k = choose|k: int| 0 <= k < ok.len() && ok[k] == b;
                        if k == last {
                            assert(self.keys@[i as int] == b);
                        } else {
                            assert(k != i);
                            assert(self.keys@[k] == b);
                        }
                    }
                }
            },
            None => {
                assert(self.map@.remove(a) =~= self.map@);
            },
        }
    }
}

} // verus!
