use vstd::prelude::*;

use std::collections::VecDeque;

use crate::aligner::{Aligner, after_get, after_put, any_eligible, is_fair_pick};
use crate::blacklist::{Blacklist, after_blacklist, after_expire, expired};
use crate::counting::{
    select, lemma_select_all, lemma_select_none, lemma_select_push, count_where, lemma_count_none, lemma_count_push, lemma_count_remove, lemma_count_update, lemma_sum_add, lemma_sum_bound,
    lemma_sum_indicator, lemma_sum_zero, sum_over,
};
use crate::config::Done;
use crate::endpoint::Endpoint;
use crate::random::uniform_between;

verus! {

/// A connect attempt in flight.
#[derive(Clone, Copy, Debug)]
pub struct Attempt {
    pub id: u64,
    pub addr: Endpoint,
}

/// The state of one live connection: at most one request waiting for the
/// connection's driver, whether it waits in the ready queue, and whether the
/// connection is being closed.
pub struct Slot<I> {
    pub id: u64,
    pub addr: Endpoint,
    pub pending: Option<I>,
    pub queued: bool,
    pub closed: bool,
    pub opened_at: u64,
}

/// What a connection's driver is to do next.
pub enum Action<I> {
    /// Send this request into the connection.
    StartSend(I),
    /// Nothing to send: flush the connection.
    Poll,
    /// The connection is to be closed.
    Close,
}

/// The outcome of offering a request to the multiplexer.
pub enum SendStep<I> {
    /// The request was handed to the connection with this id; its driver is
    /// to be run, after which `request_back` tells whether it was taken.
    Deposited(u64),
    /// No connection can take the request now; a connect attempt with this
    /// id to this endpoint is to be started. The request is handed back.
    Connect(u64, Endpoint, I),
    /// No connection can take the request now; it is handed back.
    Wait(I),
    /// The pool is closed: it accepts no more requests.
    Done(I),
}

pub open spec fn attempt_to(a: Endpoint) -> spec_fn(Attempt) -> bool {
    |t: Attempt| t.addr == a
}

pub open spec fn slot_to<I>(a: Endpoint) -> spec_fn(Slot<I>) -> bool {
    |s: Slot<I>| s.addr == a
}

/// The slot `s` with its waiting request replaced by `p`.
pub open spec fn with_pending<I>(s: Slot<I>, p: Option<I>) -> Slot<I> {
    Slot { id: s.id, addr: s.addr, pending: p, queued: s.queued, closed: s.closed, opened_at: s.opened_at }
}

/// The slot `s` holding `x`, out of the ready queue.
pub open spec fn holding<I>(s: Slot<I>, x: I) -> Slot<I> {
    Slot { id: s.id, addr: s.addr, pending: Some(x), queued: false, closed: s.closed, opened_at: s.opened_at }
}

/// The slot `s` with its `queued` flag set to `q`.
pub open spec fn with_queued<I>(s: Slot<I>, q: bool) -> Slot<I> {
    Slot { id: s.id, addr: s.addr, pending: s.pending, queued: q, closed: s.closed, opened_at: s.opened_at }
}

/// The slot `s` marked closed, everything else kept.
pub open spec fn retired<I>(s: Slot<I>) -> Slot<I> {
    Slot { id: s.id, addr: s.addr, pending: s.pending, queued: s.queued, closed: true, opened_at: s.opened_at }
}

/// An attempt whose endpoint is in `old_snap` but not in `new_snap`.
pub open spec fn attempt_leaves(old_snap: Seq<Endpoint>, new_snap: Seq<Endpoint>) -> spec_fn(Attempt) -> bool {
    |t: Attempt| old_snap.contains(t.addr) && !new_snap.contains(t.addr)
}

/// An attempt whose endpoint does not leave between the two snapshots.
pub open spec fn attempt_stays(old_snap: Seq<Endpoint>, new_snap: Seq<Endpoint>) -> spec_fn(Attempt) -> bool {
    |t: Attempt| !(old_snap.contains(t.addr) && !new_snap.contains(t.addr))
}

/// A connection whose endpoint is in `old_snap` but not in `new_snap`.
pub open spec fn slot_leaves<I>(old_snap: Seq<Endpoint>, new_snap: Seq<Endpoint>) -> spec_fn(Slot<I>) -> bool {
    |s: Slot<I>| old_snap.contains(s.addr) && !new_snap.contains(s.addr)
}

/// A connection whose endpoint does not leave between the two snapshots.
pub open spec fn slot_stays<I>(old_snap: Seq<Endpoint>, new_snap: Seq<Endpoint>) -> spec_fn(Slot<I>) -> bool {
    |s: Slot<I>| !(old_snap.contains(s.addr) && !new_snap.contains(s.addr))
}

/// The ids of the attempts in `s`, in order.
pub open spec fn attempt_ids(s: Seq<Attempt>) -> Seq<u64>
    decreases s.len(),
{
    if s.len() == 0 { Seq::empty() } else { attempt_ids(s.drop_last()).push(s.last().id) }
}

/// The ids of the connections in `s`, in order.
pub open spec fn slot_ids<I>(s: Seq<Slot<I>>) -> Seq<u64>
    decreases s.len(),
{
    if s.len() == 0 { Seq::empty() } else { slot_ids(s.drop_last()).push(s.last().id) }
}

/// The connections in `s`, each marked closed.
pub open spec fn retire_all<I>(s: Seq<Slot<I>>) -> Seq<Slot<I>>
    decreases s.len(),
{
    if s.len() == 0 { Seq::empty() } else { retire_all(s.drop_last()).push(retired(s.last())) }
}

proof fn lemma_attempt_ids_push(a: Seq<Attempt>, t: Attempt)
    ensures
        attempt_ids(a.push(t)) == attempt_ids(a).push(t.id),
{
    assert(a.push(t).drop_last() =~= a);
}

proof fn lemma_slot_seqs_push<I>(s: Seq<Slot<I>>, x: Slot<I>)
    ensures
        slot_ids(s.push(x)) == slot_ids(s).push(x.id),
        retire_all(s.push(x)) == retire_all(s).push(retired(x)),
{
    assert(s.push(x).drop_last() =~= s);
}

/// What the driver of a live connection is told to do with slot `s`.
pub open spec fn live_action<I>(s: Slot<I>) -> Action<I> {
    match s.pending {
        Some(x) => Action::StartSend(x),
        None => if s.closed { Action::Close } else { Action::Poll },
    }
}

/// What the driver of a retiring connection is told to do with slot `s`.
pub open spec fn retiring_action<I>(s: Slot<I>) -> Action<I> {
    match s.pending {
        Some(x) => Action::StartSend(x),
        None => Action::Close,
    }
}

/// The constructor of a uniform multiplexer: at most `conn_limit`
/// connections (and connect attempts) per endpoint, opened when requests
/// wait (or, when `lazy` is false, as soon as endpoints are known), and a
/// reconnect window derived from `reconnect_timeout_ms`.
#[derive(Debug, Clone, Copy, PartialEq, Eq, Structural)]
pub struct LazyUniform {
    pub conn_limit: u32,
    pub reconnect_timeout_ms: u64,
    pub lazy: bool,
}

impl LazyUniform {
    /// The backoff window `[t/2, 3t/2]` for a reconnect timeout `t` (its
    /// upper end capped at the largest `u64`).
    pub open spec fn window(&self) -> (u64, u64) {
        let t = self.reconnect_timeout_ms;
        let hi = t + t / 2;
        (t / 2, if hi > u64::MAX { u64::MAX } else { hi as u64 })
    }

    /// A multiplexer with no endpoints yet.
    pub fn construct<I>(&self) -> (r: Lazy<I>)
        ensures
            r.wf(),
            r.conn_limit() == self.conn_limit,
            r.reconnect_ms() == self.window(),
            r.uses_of() == Map::<Endpoint, u64>::empty(),
            r.penalties() == Map::<Endpoint, u64>::empty(),
            r.drivers() == 0,
            r.ready().len() == 0,
            r.snapshot().len() == 0,
            !r.is_closing(),
    {
        let t = self.reconnect_timeout_ms;
        Lazy::new(self.conn_limit, (t / 2, t.saturating_add(t / 2)))
    }
}

/// Whether `a` occurs in `v`.
pub fn contains_addr(v: &Vec<Endpoint>, a: Endpoint) -> (r: bool)
    ensures
        r == v@.contains(a),
{
    let mut i: usize = 0;
    while i < v.len()
        invariant
            i <= v@.len(),
            forall|j: int| 0 <= j < i ==> v@[j] != a,
        decreases v@.len() - i,
    {
        if v[i] == a {
            proof {
                assert(v@[i as int] == a);
            }
            return true;
        }
        i = i + 1;
    }
    false
}

/// The endpoints of `v`, each once, in order of first occurrence.
pub fn distinct_addrs(v: &Vec<Endpoint>) -> (r: Vec<Endpoint>)
    ensures
        r@.no_duplicates(),
        forall|a: Endpoint| r@.contains(a) <==> v@.contains(a),
{
    let mut out: Vec<Endpoint> = Vec::new();
    let mut i: usize = 0;
    while i < v.len()
        invariant
            i <= v@.len(),
            out@.no_duplicates(),
            forall|a: Endpoint| out@.contains(a) <==> exists|j: int| 0 <= j < i && v@[j] == a,
        decreases v@.len() - i,
    {
        let a = v[i];
        if !contains_addr(&out, a) {
            let ghost prev = out@;
            out.push(a);
            proof {
                assert forall|b: Endpoint| out@.contains(b) <==> exists|j: int| 0 <= j < i + 1 && v@[j] == b by {
                    if out@.contains(b) {
                        let k = choose|k: int| 0 <= k < out@.len() && out@[k] == b;
                        if k < prev.len() {
                            assert(prev[k] == b);
                            assert(prev.contains(b));
                        } else {
                            assert(v@[i as int] == b);
                        }
                    }
                    if exists|j: int| 0 <= j < i + 1 && v@[j] == b {
                        let j = choose|j: int| 0 <= j < i + 1 && v@[j] == b;
                        if j < i {
                            assert(prev.contains(b));
                            let k = choose|k: int| 0 <= k < prev.len() && prev[k] == b;
                            assert(out@[k] == b);
                        } else {
                            assert(out@[prev.len() as int] == b);
                        }
                    }
                }
            }
        } else {
            proof {
                assert forall|b: Endpoint| out@.contains(b) <==> exists|j: int| 0 <= j < i + 1 && v@[j] == b by {
                    if exists|j: int| 0 <= j < i + 1 && v@[j] == b {
                        let j = choose|j: int| 0 <= j < i + 1 && v@[j] == b;
                        if j == i {
                            assert(out@.contains(b));
                        } else {
                            assert(exists|j: int| 0 <= j < i && v@[j] == b);
                        }
                    }
                }
            }
        }
        i = i + 1;
    }
    proof {
        assert forall|a: Endpoint| out@.contains(a) <==> v@.contains(a) by {
            if v@.contains(a) {
                let j = choose|j: int| 0 <= j < v@.len() && v@[j] == a;
                assert(exists|j: int| 0 <= j < i && v@[j] == a);
            }
        }
    }
    out
}

/// The endpoints of `v` that do not occur in `w`, in order.
pub fn addrs_not_in(v: &Vec<Endpoint>, w: &Vec<Endpoint>) -> (r: Vec<Endpoint>)
    ensures
        forall|a: Endpoint| r@.contains(a) <==> v@.contains(a) && !w@.contains(a),
{
    let mut out: Vec<Endpoint> = Vec::new();
    let mut i: usize = 0;
    while i < v.len()
        invariant
            i <= v@.len(),
            forall|a: Endpoint| out@.contains(a) <==> (exists|j: int| 0 <= j < i && v@[j] == a) && !w@.contains(a),
        decreases v@.len() - i,
    {
        let a = v[i];
        if !contains_addr(w, a) {
            let ghost prev = out@;
            out.push(a);
            proof {
                assert forall|b: Endpoint| out@.contains(b) <==> (exists|j: int| 0 <= j < i + 1 && v@[j] == b) && !w@.contains(b) by {
                    if out@.contains(b) {
                        let k = choose|k: int| 0 <= k < out@.len() && out@[k] == b;
                        if k < prev.len() {
                            assert(prev[k] == b);
                            assert(prev.contains(b));
                        } else {
                            assert(v@[i as int] == b);
                        }
                    }
                    if (exists|j: int| 0 <= j < i + 1 && v@[j] == b) && !w@.contains(b) {
                        let j = choose|j: int| 0 <= j < i + 1 && v@[j] == b;
                        if j < i {
                            assert(prev.contains(b));
                            let k = choose|k: int| 0 <= k < prev.len() && prev[k] == b;
                            assert(out@[k] == b);
                        } else {
                            assert(out@[prev.len() as int] == b);
                        }
                    }
                }
            }
        } else {
            proof {
                assert forall|b: Endpoint| out@.contains(b) <==> (exists|j: int| 0 <= j < i + 1 && v@[j] == b) && !w@.contains(b) by {
                    if (exists|j: int| 0 <= j < i + 1 && v@[j] == b) && !w@.contains(b) {
                        let j = choose|j: int| 0 <= j < i + 1 && v@[j] == b;
                        assert(j != i);
                        assert(exists|j: int| 0 <= j < i && v@[j] == b);
                    }
                }
            }
        }
        i = i + 1;
    }
    proof {
        assert forall|a: Endpoint| out@.contains(a) <==> v@.contains(a) && !w@.contains(a) by {
            if v@.contains(a) {
                let j = choose|j: int| 0 <= j < v@.len() && v@[j] == a;
                assert(exists|j: int| 0 <= j < i && v@[j] == a);
            }
        }
    }
    out
}

/// The multiplexer: spreads requests over live connections, and decides
/// when to connect, to which endpoint, and when to retire a connection.
pub struct Lazy<I> {
    conn_limit: u32,
    reconnect_ms: (u64, u64),
    aligner: Aligner,
    blist: Blacklist,
    attempts: Vec<Attempt>,
    slots: Vec<Slot<I>>,
    retiring: Vec<Slot<I>>,
    aborted: Vec<Attempt>,
    ready: VecDeque<u64>,
    cur_address: Vec<Endpoint>,
    closing: bool,
    next_id: u64,
    lifted: Vec<Endpoint>,
}

impl<I> Lazy<I> {
    pub closed spec fn conn_limit(&self) -> u32 {
        self.conn_limit
    }

    pub closed spec fn reconnect_ms(&self) -> (u64, u64) {
        self.reconnect_ms
    }

    pub closed spec fn uses_of(&self) -> Map<Endpoint, u64> {
        self.aligner@
    }

    pub closed spec fn penalties(&self) -> Map<Endpoint, u64> {
        self.blist@
    }

    pub closed spec fn attempts(&self) -> Seq<Attempt> {
        self.attempts@
    }

    pub closed spec fn slots(&self) -> Seq<Slot<I>> {
        self.slots@
    }

    pub closed spec fn retiring(&self) -> Seq<Slot<I>> {
        self.retiring@
    }

    pub closed spec fn aborted(&self) -> Seq<Attempt> {
        self.aborted@
    }

    pub closed spec fn ready(&self) -> Seq<u64> {
        self.ready@
    }

    pub closed spec fn snapshot(&self) -> Seq<Endpoint> {
        self.cur_address@
    }

    /// The endpoints whose penalties were lifted and not yet handed out by
    /// `take_lifted`.
    pub closed spec fn lifted(&self) -> Seq<Endpoint> {
        self.lifted@
    }

    pub closed spec fn is_closing(&self) -> bool {
        self.closing
    }

    /// The number of connect attempts and live connections that target `a`
    /// and count against it (those of retired endpoints do not).
    pub open spec fn uses(&self, a: Endpoint) -> nat {
        count_where(self.attempts(), attempt_to(a)) + count_where(self.slots(), slot_to::<I>(a))
    }

    /// The number of drivers (connect attempts and connections) still running.
    pub open spec fn drivers(&self) -> nat {
        self.attempts().len() + self.slots().len() + self.retiring().len() + self.aborted().len()
    }

    /// `i` is the first live connection with this id.
    pub open spec fn slot_index(&self, id: u64, i: int) -> bool {
        &&& 0 <= i < self.slots().len()
        &&& self.slots()[i].id == id
        &&& forall|j: int| 0 <= j < i ==> self.slots()[j].id != id
    }

    /// `i` is the first retiring connection with this id.
    pub open spec fn retiring_index(&self, id: u64, i: int) -> bool {
        &&& 0 <= i < self.retiring().len()
        &&& self.retiring()[i].id == id
        &&& forall|j: int| 0 <= j < i ==> self.retiring()[j].id != id
    }

    /// A request may be handed to the connection with this id.
    pub open spec fn accepts(&self, id: u64) -> bool {
        exists|i: int| #[trigger] self.slot_index(id, i) && !self.slots()[i].closed && self.slots()[i].pending.is_none()
    }

    /// `i` is the first connect attempt with this id.
    pub open spec fn attempt_index(&self, id: u64, i: int) -> bool {
        &&& 0 <= i < self.attempts().len()
        &&& self.attempts()[i].id == id
        &&& forall|j: int| 0 <= j < i ==> self.attempts()[j].id != id
    }

    /// The penalty given to an endpoint: it ends between `now + min` and
    /// `now + max` of the reconnect window (`max` taken as at least `min`;
    /// at the largest instant where a sum does not fit).
    pub open spec fn penalty_in_window(&self, now: u64, expiry: u64) -> bool {
        let lo = self.reconnect_ms().0;
        let hi = if self.reconnect_ms().1 > lo { self.reconnect_ms().1 } else { lo };
        &&& expiry >= if now + lo > u64::MAX { u64::MAX as int } else { now + lo }
        &&& expiry <= if now + hi > u64::MAX { u64::MAX as int } else { now + hi }
    }

    pub open spec fn wf(&self) -> bool {
        &&& self.inner_wf()
        &&& forall|a: Endpoint| #[trigger] self.uses_of().contains_key(a) ==> self.uses_of()[a] == self.uses(a)
        &&& forall|a: Endpoint| #[trigger] self.uses_of().contains_key(a) ==> self.uses_of()[a] <= self.conn_limit()
        &&& forall|a: Endpoint| #[trigger] self.uses_of().contains_key(a) <==> self.snapshot().contains(a)
        &&& forall|i: int| 0 <= i < self.attempts().len() ==> self.uses_of().contains_key(#[trigger] self.attempts()[i].addr)
        &&& forall|i: int| 0 <= i < self.slots().len() ==> self.uses_of().contains_key(#[trigger] self.slots()[i].addr)
        &&& forall|i: int| 0 <= i < self.slots().len() ==> (#[trigger] self.slots()[i]).pending.is_some() ==> !self.slots()[i].queued
        &&& forall|i: int| 0 <= i < self.slots().len() ==> !self.is_closing() ==> !(#[trigger] self.slots()[i]).closed
        &&& forall|i: int| 0 <= i < self.retiring().len() ==> (#[trigger] self.retiring()[i]).closed
        &&& self.snapshot().no_duplicates()
    }

    pub closed spec fn inner_wf(&self) -> bool {
        self.aligner.wf() && self.blist.wf()
    }

    /// A multiplexer with no endpoints and no connections.
    pub fn new(conn_limit: u32, reconnect_ms: (u64, u64)) -> (r: Lazy<I>)
        ensures
            r.wf(),
            r.conn_limit() == conn_limit,
            r.reconnect_ms() == reconnect_ms,
            r.uses_of() == Map::<Endpoint, u64>::empty(),
            r.penalties() == Map::<Endpoint, u64>::empty(),
            r.drivers() == 0,
            r.ready().len() == 0,
            r.snapshot().len() == 0,
            !r.is_closing(),
    {
        let r = Lazy {
            conn_limit,
            reconnect_ms,
            aligner: Aligner::new(),
            blist: Blacklist::new(),
            attempts: Vec::new(),
            slots: Vec::new(),
            retiring: Vec::new(),
            aborted: Vec::new(),
            ready: VecDeque::new(),
            cur_address: Vec::new(),
            closing: false,
            next_id: 0,
            lifted: Vec::new(),
        };
        proof {
            assert forall|a: Endpoint| #[trigger] r.uses_of().contains_key(a) <==> r.snapshot().contains(a) by {
                if r.snapshot().contains(a) {
                    let k = choose|k: int| 0 <= k < r.snapshot().len() && r.snapshot()[k] == a;
                }
            }
        }
        r
    }

    /// Whether no driver is running any more.
    pub fn no_drivers(&self) -> (r: bool)
        ensures
            r == (self.drivers() == 0),
    {
        self.attempts.len() == 0 && self.slots.len() == 0 && self.retiring.len() == 0 && self.aborted.len() == 0
    }

    /// The number of connect attempts that count.
    pub fn connecting(&self) -> (r: usize)
        ensures
            r == self.attempts().len(),
    {
        self.attempts.len()
    }

    /// The number of live connections that count.
    pub fn live(&self) -> (r: usize)
        ensures
            r == self.slots().len(),
    {
        self.slots.len()
    }

    /// The number of connections being retired.
    pub fn retiring_count(&self) -> (r: usize)
        ensures
            r == self.retiring().len(),
    {
        self.retiring.len()
    }

    /// The number of entries in the ready queue.
    pub fn ready_len(&self) -> (r: usize)
        ensures
            r == self.ready().len(),
    {
        self.ready.len()
    }

    /// Whether the pool is closing.
    pub fn closing(&self) -> (r: bool)
        ensures
            r == self.is_closing(),
    {
        self.closing
    }

    /// The use count of `a`, if it is in the snapshot.
    pub fn use_count(&self, a: Endpoint) -> (r: Option<u64>)
        requires
            self.wf(),
        ensures
            r == (if self.uses_of().contains_key(a) { Some(self.uses_of()[a]) } else { None::<u64> }),
    {
        self.aligner.count(a)
    }

    /// The instant at which the penalty of `a` ends, if it has one.
    pub fn penalty(&self, a: Endpoint) -> (r: Option<u64>)
        requires
            self.wf(),
        ensures
            r == (if self.penalties().contains_key(a) { Some(self.penalties()[a]) } else { None::<u64> }),
    {
        self.blist.expiry(a)
    }

    /// The earliest instant at which a penalty ends, if any endpoint has one.
    pub fn next_penalty_end(&self) -> (r: Option<u64>)
        requires
            self.wf(),
        ensures
            r.is_none() <==> forall|a: Endpoint| !self.penalties().contains_key(a),
            r matches Some(t) ==> forall|a: Endpoint| #[trigger] self.penalties().contains_key(a) ==> t <= self.penalties()[a],
    {
        let r = self.blist.next_expiry();
        proof {
            assert(self.penalties() == self.blist@);
        }
        r
    }

    /// Whether connect attempts to `a` are currently under penalty.
    pub fn is_failing(&self, a: Endpoint) -> (r: bool)
        requires
            self.wf(),
        ensures
            r == self.penalties().contains_key(a),
    {
        self.blist.is_failing(a)
    }

    fn find_slot(&self, id: u64) -> (r: Option<usize>)
        ensures
            r matches Some(i) ==> self.slot_index(id, i as int),
            r.is_none() ==> forall|i: int| 0 <= i < self.slots@.len() ==> self.slots@[i].id != id,
    {
        let mut i: usize = 0;
        while i < self.slots.len()
            invariant
                i <= self.slots@.len(),
                forall|j: int| 0 <= j < i ==> self.slots@[j].id != id,
            decreases self.slots@.len() - i,
        {
            if self.slots[i].id == id {
                return Some(i);
            }
            i = i + 1;
        }
        None
    }

    fn find_retiring(&self, id: u64) -> (r: Option<usize>)
        ensures
            r matches Some(i) ==> self.retiring_index(id, i as int),
            r.is_none() ==> forall|i: int| 0 <= i < self.retiring@.len() ==> self.retiring@[i].id != id,
    {
        let mut i: usize = 0;
        while i < self.retiring.len()
            invariant
                i <= self.retiring@.len(),
                forall|j: int| 0 <= j < i ==> self.retiring@[j].id != id,
            decreases self.retiring@.len() - i,
        {
            if self.retiring[i].id == id {
                return Some(i);
            }
            i = i + 1;
        }
        None
    }

    /// Everything but the slots of live connections stays as it was.
    pub open spec fn same_but_slots(&self, other: &Lazy<I>) -> bool {
        &&& self.conn_limit() == other.conn_limit()
        &&& self.reconnect_ms() == other.reconnect_ms()
        &&& self.uses_of() == other.uses_of()
        &&& self.penalties() == other.penalties()
        &&& self.attempts() == other.attempts()
        &&& self.aborted() == other.aborted()
        &&& self.snapshot() == other.snapshot()
        &&& self.is_closing() == other.is_closing()
    }

    proof fn lemma_slot_update(&self, other: &Lazy<I>, i: int)
        requires
            self.wf(),
            self.same_but_slots(other),
            other.inner_wf() == self.inner_wf(),
            0 <= i < self.slots().len(),
            other.slots() == self.slots().update(i, other.slots()[i]),
            other.slots()[i].addr == self.slots()[i].addr,
            other.slots()[i].pending.is_some() ==> !other.slots()[i].queued,
            !other.is_closing() ==> !other.slots()[i].closed,
            forall|j: int| 0 <= j < other.retiring().len() ==> (#[trigger] other.retiring()[j]).closed,
        ensures
            other.wf(),
    {
        assert forall|a: Endpoint| #[trigger] other.uses_of().contains_key(a) implies other.uses_of()[a] == other.uses(a) by {
            lemma_count_update(self.slots(), i, other.slots()[i], slot_to::<I>(a));
        }
        assert forall|j: int| 0 <= j < other.slots().len() implies other.uses_of().contains_key(#[trigger] other.slots()[j].addr) by {
            assert(self.uses_of().contains_key(self.slots()[j].addr));
        }
        assert forall|j: int| 0 <= j < other.slots().len() implies (#[trigger] other.slots()[j]).pending.is_some() ==> !other.slots()[j].queued by {
            if j != i {
                assert(self.slots()[j] == other.slots()[j]);
            }
        }
        assert forall|j: int| 0 <= j < other.slots().len() implies !other.is_closing() ==> !(#[trigger] other.slots()[j]).closed by {
            if j != i {
                assert(self.slots()[j] == other.slots()[j]);
            }
        }
    }

    /// No live connection has this id.
    pub open spec fn no_slot(&self, id: u64) -> bool {
        forall|i: int| 0 <= i < self.slots().len() ==> self.slots()[i].id != id
    }

    /// No retiring connection has this id.
    pub open spec fn no_retiring(&self, id: u64) -> bool {
        forall|i: int| 0 <= i < self.retiring().len() ==> self.retiring()[i].id != id
    }

    /// The driver of connection `id` asks what to do: send the request
    /// waiting for it, if any; else close the connection if it is being
    /// closed (or unknown); else flush. The request it is told to send leaves
    /// the slot; nothing else changes.
    pub fn take(&mut self, id: u64) -> (r: Action<I>)
        requires
            old(self).wf(),
        ensures
            final(self).wf(),
            final(self).same_but_slots(old(self)),
            final(self).ready() == old(self).ready(),
            final(self).drivers() == old(self).drivers(),
            forall|i: int| #[trigger] old(self).slot_index(id, i) ==> {
                &&& final(self).slots() == old(self).slots().update(i, with_pending(old(self).slots()[i], None))
                &&& final(self).retiring() == old(self).retiring()
                &&& r == live_action(old(self).slots()[i])
            },
            old(self).no_slot(id) ==> final(self).slots() == old(self).slots(),
            old(self).no_slot(id) ==> forall|i: int| #[trigger] old(self).retiring_index(id, i) ==> {
                &&& final(self).retiring() == old(self).retiring().update(i, with_pending(old(self).retiring()[i], None))
                &&& r == retiring_action(old(self).retiring()[i])
            },
            old(self).no_slot(id) && old(self).no_retiring(id) ==> final(self).retiring() == old(self).retiring()
                && r == Action::<I>::Close,
    {
        match self.find_slot(id) {
            Some(i) => {
                let ghost before = *self;
                let taken = self.slots[i].pending.take();
                proof {
                    assert(self.slots()[i as int] == with_pending(before.slots()[i as int], None));
                    assert(self.slots() =~= before.slots().update(i as int, with_pending(before.slots()[i as int], None)));
                    before.lemma_slot_update(self, i as int);
                    assert forall|k: int| #[trigger] before.slot_index(id, k) implies k == i by {
                        if k < i { assert(before.slots()[k].id != id); }
                        if k > i { assert(before.slots()[i as int].id != id); }
                    }
                }
                match taken {
                    Some(x) => Action::StartSend(x),
                    None => {
                        if self.slots[i].closed {
                            Action::Close
                        } else {
                            Action::Poll
                        }
                    },
                }
            },
            None => {
                proof {
                    assert forall|k: int| #[trigger] self.slot_index(id, k) implies false by {}
                }
                match self.find_retiring(id) {
                    Some(i) => {
                        let ghost before = *self;
                        let taken = self.retiring[i].pending.take();
                        proof {
                            assert(self.retiring()[i as int] == with_pending(before.retiring()[i as int], None));
                            assert(self.retiring() =~= before.retiring().update(i as int, with_pending(before.retiring()[i as int], None)));
                            assert forall|j: int| 0 <= j < self.retiring().len() implies (#[trigger] self.retiring()[j]).closed by {
                                assert(before.retiring()[j].closed);
                            }
                            assert forall|k: int| #[trigger] before.retiring_index(id, k) implies k == i by {
                                if k < i { assert(before.retiring()[k].id != id); }
                                if k > i { assert(before.retiring()[i as int].id != id); }
                            }
                            before.lemma_wf_other_drivers(self);
                        }
                        match taken {
                            Some(x) => Action::StartSend(x),
                            None => Action::Close,
                        }
                    },
                    None => {
                        proof {
                            assert forall|k: int| #[trigger] self.retiring_index(id, k) implies false by {}
                        }
                        Action::Close
                    },
                }
            },
        }
    }

    /// The driver of connection `id` could not send `item` (the connection
    /// pushed back): the request waits in the slot again, which stays out of
    /// the ready queue. The item is handed back, and nothing changes, when
    /// there is no such connection or its slot is taken.
    pub fn backpressure(&mut self, id: u64, item: I) -> (r: Option<I>)
        requires
            old(self).wf(),
        ensures
            final(self).wf(),
            final(self).same_but_slots(old(self)),
            final(self).ready() == old(self).ready(),
            final(self).drivers() == old(self).drivers(),
            r matches Some(x) ==> x == item && final(self).slots() == old(self).slots()
                && final(self).retiring() == old(self).retiring(),
            forall|i: int| #[trigger] old(self).slot_index(id, i) ==> {
                &&& final(self).retiring() == old(self).retiring()
                &&& old(self).slots()[i].pending.is_none() ==> r.is_none()
                    && final(self).slots() == old(self).slots().update(i, holding(old(self).slots()[i], item))
                &&& old(self).slots()[i].pending.is_some() ==> r == Some(item)
            },
            old(self).no_slot(id) ==> final(self).slots() == old(self).slots(),
            old(self).no_slot(id) ==> forall|i: int| #[trigger] old(self).retiring_index(id, i) ==> {
                &&& old(self).retiring()[i].pending.is_none() ==> r.is_none()
                    && final(self).retiring() == old(self).retiring().update(i, with_pending(old(self).retiring()[i], Some(item)))
                &&& old(self).retiring()[i].pending.is_some() ==> r == Some(item)
            },
            old(self).no_slot(id) && old(self).no_retiring(id) ==> r == Some(item),
    {
        match self.find_slot(id) {
            Some(i) => {
                proof {
                    assert forall|k: int| #[trigger] self.slot_index(id, k) implies k == i by {
                        if k < i { assert(self.slots()[k].id != id); }
                        if k > i { assert(self.slots()[i as int].id != id); }
                    }
                }
                if self.slots[i].pending.is_some() {
                    return Some(item);
                }
                let ghost before = *self;
                self.slots[i].pending = Some(item);
                self.slots[i].queued = false;
                proof {
                    assert(self.slots()[i as int] == holding(before.slots()[i as int], item));
                    assert(self.slots() =~= before.slots().update(i as int, holding(before.slots()[i as int], item)));
                    before.lemma_slot_update(self, i as int);
                }
                None
            },
            None => {
                proof {
                    assert forall|k: int| #[trigger] self.slot_index(id, k) implies false by {}
                }
                match self.find_retiring(id) {
                    Some(i) => {
                        proof {
                            assert forall|k: int| #[trigger] self.retiring_index(id, k) implies k == i by {
                                if k < i { assert(self.retiring()[k].id != id); }
                                if k > i { assert(self.retiring()[i as int].id != id); }
                            }
                        }
                        if self.retiring[i].pending.is_some() {
                            return Some(item);
                        }
                        let ghost before = *self;
                        self.retiring[i].pending = Some(item);
                        proof {
                            assert(self.retiring()[i as int] == with_pending(before.retiring()[i as int], Some(item)));
                            assert(self.retiring() =~= before.retiring().update(i as int, with_pending(before.retiring()[i as int], Some(item))));
                            assert forall|j: int| 0 <= j < self.retiring().len() implies (#[trigger] self.retiring()[j]).closed by {
                                assert(before.retiring()[j].closed);
                            }
                            before.lemma_wf_other_drivers(self);
                        }
                        None
                    },
                    None => {
                        proof {
                            assert forall|k: int| #[trigger] self.retiring_index(id, k) implies false by {}
                        }
                        Some(item)
                    },
                }
            },
        }
    }

    /// The driver of connection `id` can take another request: unless it is
    /// closed, holds a request, or already waits, it joins the back of the
    /// ready queue and its slot is marked queued; otherwise nothing changes.
    pub fn requeue(&mut self, id: u64)
        requires
            old(self).wf(),
        ensures
            final(self).wf(),
            final(self).same_but_slots(old(self)),
            final(self).retiring() == old(self).retiring(),
            final(self).ready() == old(self).ready() || final(self).ready() == old(self).ready().push(id),
            final(self).ready() == old(self).ready().push(id) <==> exists|i: int| #[trigger] old(self).slot_index(id, i)
                && !old(self).slots()[i].queued && !old(self).slots()[i].closed && old(self).slots()[i].pending.is_none(),
            final(self).ready() == old(self).ready() ==> final(self).slots() == old(self).slots(),
            forall|i: int| #[trigger] old(self).slot_index(id, i) && final(self).ready() == old(self).ready().push(id)
                ==> final(self).slots() == old(self).slots().update(i, with_queued(old(self).slots()[i], true)),
    {
        match self.find_slot(id) {
            Some(i) => {
                proof {
                    assert forall|k: int| #[trigger] self.slot_index(id, k) implies k == i by {
                        if k < i {
                            assert(self.slots()[k].id != id);
                        }
                        if k > i {
                            assert(self.slots()[i as int].id != id);
                        }
                    }
                    assert(self.ready().push(id).len() != self.ready().len());
                }
                if self.slots[i].closed || self.slots[i].queued || self.slots[i].pending.is_some() {
                    return;
                }
                let ghost before = *self;
                self.slots[i].queued = true;
                self.ready.push_back(id);
                proof {
                    assert(self.slots()[i as int] == with_queued(before.slots()[i as int], true));
                    assert(self.slots() =~= before.slots().update(i as int, with_queued(before.slots()[i as int], true)));
                    before.lemma_slot_update(self, i as int);
                    assert(self.ready().len() == before.ready().len() + 1);
                    assert(before.slot_index(id, i as int));
                }
            },
            None => {
                proof {
                    assert(self.ready().push(id).len() != self.ready().len());
                }
            },
        }
    }

    /// Take back the request deposited into connection `id` if its driver
    /// has not taken it; the slot is left empty and nothing else changes.
    pub fn request_back(&mut self, id: u64) -> (r: Option<I>)
        requires
            old(self).wf(),
        ensures
            final(self).wf(),
            final(self).same_but_slots(old(self)),
            final(self).ready() == old(self).ready(),
            final(self).retiring() == old(self).retiring(),
            forall|i: int| #[trigger] old(self).slot_index(id, i) ==> r == old(self).slots()[i].pending
                && final(self).slots() == old(self).slots().update(i, with_pending(old(self).slots()[i], None)),
            old(self).no_slot(id) ==> r.is_none() && final(self).slots() == old(self).slots(),
    {
        match self.find_slot(id) {
            Some(i) => {
                let ghost before = *self;
                let taken = self.slots[i].pending.take();
                proof {
                    assert(self.slots()[i as int] == with_pending(before.slots()[i as int], None));
                    assert(self.slots() =~= before.slots().update(i as int, with_pending(before.slots()[i as int], None)));
                    before.lemma_slot_update(self, i as int);
                    assert forall|k: int| #[trigger] before.slot_index(id, k) implies k == i by {
                        if k < i { assert(before.slots()[k].id != id); }
                        if k > i { assert(before.slots()[i as int].id != id); }
                    }
                }
                taken
            },
            None => None,
        }
    }

    fn find_attempt(&self, id: u64) -> (r: Option<usize>)
        ensures
            r matches Some(i) ==> self.attempt_index(id, i as int),
            r.is_none() ==> forall|i: int| 0 <= i < self.attempts@.len() ==> self.attempts@[i].id != id,
    {
        let mut i: usize = 0;
        while i < self.attempts.len()
            invariant
                i <= self.attempts@.len(),
                forall|j: int| 0 <= j < i ==> self.attempts@[j].id != id,
            decreases self.attempts@.len() - i,
        {
            if self.attempts[i].id == id {
                return Some(i);
            }
            i = i + 1;
        }
        None
    }

    fn find_aborted(&self, id: u64) -> (r: Option<usize>)
        ensures
            r matches Some(i) ==> i < self.aborted@.len() && self.aborted@[i as int].id == id,
            r.is_none() ==> forall|i: int| 0 <= i < self.aborted@.len() ==> self.aborted@[i].id != id,
    {
        let mut i: usize = 0;
        while i < self.aborted.len()
            invariant
                i <= self.aborted@.len(),
                forall|j: int| 0 <= j < i ==> self.aborted@[j].id != id,
            decreases self.aborted@.len() - i,
        {
            if self.aborted[i].id == id {
                return Some(i);
            }
            i = i + 1;
        }
        None
    }

    /// An instant drawn at random from the reconnect window after `now`.
    fn penalty_until(&self, now: u64) -> (r: u64)
        ensures
            self.penalty_in_window(now, r),
    {
        let lo = self.reconnect_ms.0;
        let hi = self.reconnect_ms.1;
        let backoff = if lo < hi {
            uniform_between(lo, hi)
        } else {
            lo
        };
        now.saturating_add(backoff)
    }

    /// The connect attempt `id` succeeded. If it still counts, it becomes a
    /// live connection (closed from the start when the pool is closing),
    /// which joins the ready queue when its driver first asks for work, and
    /// `true` is returned. If its endpoint was retired meanwhile, the attempt
    /// is dropped and `false` is returned: the new connection is to be
    /// dropped too.
    pub fn connected(&mut self, id: u64, now: u64) -> (r: bool)
        requires
            old(self).wf(),
        ensures
            final(self).wf(),
            final(self).conn_limit() == old(self).conn_limit(),
            final(self).reconnect_ms() == old(self).reconnect_ms(),
            final(self).uses_of() == old(self).uses_of(),
            final(self).penalties() == old(self).penalties(),
            final(self).snapshot() == old(self).snapshot(),
            final(self).is_closing() == old(self).is_closing(),
            final(self).ready() == old(self).ready(),
            final(self).retiring() == old(self).retiring(),
            r <==> exists|k: int| old(self).attempt_index(id, k),
            r ==> exists|k: int| #[trigger] old(self).attempt_index(id, k)
                && final(self).attempts() == old(self).attempts().remove(k)
                && final(self).slots().len() == old(self).slots().len() + 1
                && final(self).slots().drop_last() == old(self).slots()
                && final(self).slots().last().id == id
                && final(self).slots().last().addr == old(self).attempts()[k].addr
                && final(self).slots().last().pending.is_none()
                && !final(self).slots().last().queued
                && final(self).slots().last().closed == old(self).is_closing()
                && final(self).slots().last().opened_at == now,
            !r ==> final(self).attempts() == old(self).attempts() && final(self).slots() == old(self).slots(),
    {
        match self.find_attempt(id) {
            Some(k) => {
                let ghost before = *self;
                let t = self.attempts.remove(k);
                let slot = Slot {
                    id: t.id,
                    addr: t.addr,
                    pending: None,
                    queued: false,
                    closed: self.closing,
                    opened_at: now,
                };
                self.slots.push(slot);
                proof {
                    assert(self.slots().drop_last() =~= before.slots());
                    assert forall|a: Endpoint| #[trigger] self.uses_of().contains_key(a) implies self.uses_of()[a] == self.uses(a) by {
                        lemma_count_remove(before.attempts(), k as int, attempt_to(a));
                        lemma_count_push(before.slots(), self.slots().last(), slot_to::<I>(a));
                        assert(self.slots() == before.slots().push(self.slots().last()));
                    }
                    assert forall|j: int| 0 <= j < self.attempts().len() implies self.uses_of().contains_key(#[trigger] self.attempts()[j].addr) by {
                        let oj = if j < k { j } else { j + 1 };
                        assert(self.attempts()[j] == before.attempts()[oj]);
                    }
                    assert forall|j: int| 0 <= j < self.slots().len() implies self.uses_of().contains_key(#[trigger] self.slots()[j].addr) by {
                        if j < before.slots().len() {
                            assert(self.slots()[j] == before.slots()[j]);
                        } else {
                            assert(before.uses_of().contains_key(before.attempts()[k as int].addr));
                        }
                    }
                    assert forall|j: int| 0 <= j < self.slots().len() implies (#[trigger] self.slots()[j]).pending.is_some() ==> !self.slots()[j].queued by {
                        if j < before.slots().len() {
                            assert(self.slots()[j] == before.slots()[j]);
                        }
                    }
                    assert forall|j: int| 0 <= j < self.slots().len() implies !self.is_closing() ==> !(#[trigger] self.slots()[j]).closed by {
                        if j < before.slots().len() {
                            assert(self.slots()[j] == before.slots()[j]);
                        }
                    }
                }
                true
            },
            None => {
                match self.find_aborted(id) {
                    Some(k) => {
                        self.aborted.remove(k);
                    },
                    None => {},
                }
                false
            },
        }
    }

    /// The connect attempt `id`, retired with its endpoint, has been dropped
    /// without completing. Returns whether there was such an attempt.
    pub fn attempt_aborted(&mut self, id: u64) -> (r: bool)
        requires
            old(self).wf(),
        ensures
            final(self).wf(),
            final(self).conn_limit() == old(self).conn_limit(),
            final(self).reconnect_ms() == old(self).reconnect_ms(),
            final(self).uses_of() == old(self).uses_of(),
            final(self).penalties() == old(self).penalties(),
            final(self).attempts() == old(self).attempts(),
            final(self).slots() == old(self).slots(),
            final(self).retiring() == old(self).retiring(),
            r <==> exists|k: int| 0 <= k < old(self).aborted().len() && old(self).aborted()[k].id == id,
            r ==> final(self).aborted().len() + 1 == old(self).aborted().len(),
            !r ==> final(self).aborted() == old(self).aborted(),
    {
        match self.find_aborted(id) {
            Some(k) => {
                let ghost before = *self;
                self.aborted.remove(k);
                proof {
                    before.lemma_wf_other_drivers(self);
                    assert(before.aborted()[k as int].id == id);
                }
                true
            },
            None => {
                proof {
                    assert forall|k: int| 0 <= k < self.aborted().len() implies self.aborted()[k].id != id by {
                        assert(self.aborted@[k].id != id);
                    }
                }
                false
            },
        }
    }

    /// The invariant does not depend on the retired drivers but for their
    /// connections being closed.
    proof fn lemma_wf_other_drivers(&self, other: &Lazy<I>)
        requires
            self.wf(),
            other.inner_wf() == self.inner_wf(),
            other.conn_limit() == self.conn_limit(),
            other.uses_of() == self.uses_of(),
            other.attempts() == self.attempts(),
            other.slots() == self.slots(),
            other.snapshot() == self.snapshot(),
            other.is_closing() == self.is_closing(),
            forall|j: int| 0 <= j < other.retiring().len() ==> (#[trigger] other.retiring()[j]).closed,
        ensures
            other.wf(),
    {
        assert forall|a: Endpoint| #[trigger] other.uses_of().contains_key(a) implies other.uses_of()[a] == other.uses(a) by {
            assert(self.uses_of().contains_key(a));
        }
    }

    /// The connect attempt `id` failed. If it still counts, its endpoint is
    /// blacklisted for a backoff drawn from the reconnect window, its use
    /// count drops, and the endpoint is returned.
    #[verifier::rlimit(30)]
    pub fn connect_failed(&mut self, id: u64, now: u64) -> (r: Option<Endpoint>)
        requires
            old(self).wf(),
        ensures
            final(self).wf(),
            final(self).conn_limit() == old(self).conn_limit(),
            final(self).reconnect_ms() == old(self).reconnect_ms(),
            final(self).snapshot() == old(self).snapshot(),
            final(self).is_closing() == old(self).is_closing(),
            final(self).ready() == old(self).ready(),
            final(self).slots() == old(self).slots(),
            final(self).retiring() == old(self).retiring(),
            r.is_some() <==> exists|k: int| old(self).attempt_index(id, k),
            r matches Some(a) ==> exists|k: int| #[trigger] old(self).attempt_index(id, k)
                && a == old(self).attempts()[k].addr
                && final(self).attempts() == old(self).attempts().remove(k),
            r matches Some(a) ==> final(self).uses_of() == after_put(old(self).uses_of(), a)
                && exists|e: u64| #[trigger] old(self).penalty_in_window(now, e)
                    && final(self).penalties() == after_blacklist(old(self).penalties(), a, e),
            r.is_none() ==> final(self).attempts() == old(self).attempts()
                && final(self).uses_of() == old(self).uses_of()
                && final(self).penalties() == old(self).penalties(),
    {
        match self.find_attempt(id) {
            Some(k) => {
                let ghost before = *self;
                let t = self.attempts.remove(k);
                let until = self.penalty_until(now);
                self.blist.blacklist(t.addr, until);
                proof {
                    lemma_count_remove(before.attempts(), k as int, attempt_to(t.addr));
                    assert(before.uses(t.addr) > 0);
                    assert(before.uses_of().contains_key(t.addr));
                }
                self.aligner.put(t.addr);
                proof {
                    assert forall|a: Endpoint| #[trigger] self.uses_of().contains_key(a) implies self.uses_of()[a] == self.uses(a) by {
                        lemma_count_remove(before.attempts(), k as int, attempt_to(a));
                    }
                    assert forall|a: Endpoint| #[trigger] self.uses_of().contains_key(a) <==> self.snapshot().contains(a) by {
                        assert(before.uses_of().contains_key(a) <==> before.snapshot().contains(a));
                    }
                    assert forall|a: Endpoint| #[trigger] self.uses_of().contains_key(a) implies self.uses_of()[a] <= self.conn_limit() by {
                        assert(before.uses_of().contains_key(a));
                    }
                    assert forall|j: int| 0 <= j < self.attempts().len() implies self.uses_of().contains_key(#[trigger] self.attempts()[j].addr) by {
                        let oj = if j < k { j } else { j + 1 };
                        assert(self.attempts()[j] == before.attempts()[oj]);
                        assert(before.uses_of().contains_key(before.attempts()[oj].addr));
                    }
                    assert forall|j: int| 0 <= j < self.slots().len() implies self.uses_of().contains_key(#[trigger] self.slots()[j].addr) by {
                        assert(before.uses_of().contains_key(before.slots()[j].addr));
                    }
                }
                proof {
                    assert(before.penalty_in_window(now, until));
                    assert(self.penalties() == after_blacklist(before.penalties(), t.addr, until));
                }
                Some(t.addr)
            },
            None => {
                match self.find_aborted(id) {
                    Some(k) => {
                        self.aborted.remove(k);
                    },
                    None => {},
                }
                None
            },
        }
    }

    /// A connection opened at `opened_at` that ends at `now` was short-lived:
    /// it lasted less than the lower end of the reconnect window.
    pub open spec fn short_lived(&self, opened_at: u64, now: u64) -> bool {
        (if now >= opened_at { now - opened_at } else { 0 }) < self.reconnect_ms().0
    }

    /// The driver of connection `id` has exited: the connection leaves, and
    /// if it counted, its endpoint's use count drops.
    fn end_connection(&mut self, id: u64) -> (r: Option<(Endpoint, u64)>)
        requires
            old(self).wf(),
        ensures
            final(self).wf(),
            final(self).conn_limit() == old(self).conn_limit(),
            final(self).reconnect_ms() == old(self).reconnect_ms(),
            final(self).penalties() == old(self).penalties(),
            final(self).snapshot() == old(self).snapshot(),
            final(self).is_closing() == old(self).is_closing(),
            final(self).ready() == old(self).ready(),
            final(self).attempts() == old(self).attempts(),
            final(self).aborted() == old(self).aborted(),
            forall|k: int| #[trigger] old(self).slot_index(id, k) ==> {
                &&& r == Some((old(self).slots()[k].addr, old(self).slots()[k].opened_at))
                &&& final(self).slots() == old(self).slots().remove(k)
                &&& final(self).retiring() == old(self).retiring()
                &&& final(self).uses_of() == after_put(old(self).uses_of(), old(self).slots()[k].addr)
            },
            old(self).no_slot(id) ==> final(self).slots() == old(self).slots() && final(self).uses_of() == old(self).uses_of(),
            old(self).no_slot(id) ==> forall|k: int| #[trigger] old(self).retiring_index(id, k) ==> {
                &&& r == Some((old(self).retiring()[k].addr, old(self).retiring()[k].opened_at))
                &&& final(self).retiring() == old(self).retiring().remove(k)
            },
            old(self).no_slot(id) && old(self).no_retiring(id) ==> r.is_none() && final(self).retiring() == old(self).retiring(),
    {
        match self.find_slot(id) {
            Some(k) => {
                let ghost before = *self;
                proof {
                    assert forall|q: int| #[trigger] before.slot_index(id, q) implies q == k by {
                        if q < k { assert(before.slots()[q].id != id); }
                        if q > k { assert(before.slots()[k as int].id != id); }
                    }
                }
                let slot = self.slots.remove(k);
                let a = slot.addr;
                proof {
                    lemma_count_remove(before.slots(), k as int, slot_to::<I>(a));
                    assert(before.uses(a) > 0);
                    assert(before.uses_of().contains_key(a));
                }
                self.aligner.put(a);
                proof {
                    assert forall|b: Endpoint| #[trigger] self.uses_of().contains_key(b) implies self.uses_of()[b] == self.uses(b) by {
                        lemma_count_remove(before.slots(), k as int, slot_to::<I>(b));
                    }
                    assert forall|b: Endpoint| #[trigger] self.uses_of().contains_key(b) <==> self.snapshot().contains(b) by {
                        assert(before.uses_of().contains_key(b) <==> before.snapshot().contains(b));
                    }
                    assert forall|b: Endpoint| #[trigger] self.uses_of().contains_key(b) implies self.uses_of()[b] <= self.conn_limit() by {
                        assert(before.uses_of().contains_key(b));
                    }
                    assert forall|j: int| 0 <= j < self.attempts().len() implies self.uses_of().contains_key(#[trigger] self.attempts()[j].addr) by {
                        assert(before.uses_of().contains_key(before.attempts()[j].addr));
                    }
                    assert forall|j: int| 0 <= j < self.slots().len() implies {
                        &&& self.uses_of().contains_key(#[trigger] self.slots()[j].addr)
                        &&& self.slots()[j].pending.is_some() ==> !self.slots()[j].queued
                        &&& !self.is_closing() ==> !self.slots()[j].closed
                    } by {
                        let oj = if j < k { j } else { j + 1 };
                        assert(self.slots()[j] == before.slots()[oj]);
                        assert(before.uses_of().contains_key(before.slots()[oj].addr));
                    }
                }
                Some((a, slot.opened_at))
            },
            None => {
                match self.find_retiring(id) {
                    Some(k) => {
                        let ghost before = *self;
                        proof {
                            assert forall|q: int| #[trigger] before.slot_index(id, q) implies false by {}
                            assert forall|q: int| #[trigger] before.retiring_index(id, q) implies q == k by {
                                if q < k { assert(before.retiring()[q].id != id); }
                                if q > k { assert(before.retiring()[k as int].id != id); }
                            }
                        }
                        let slot = self.retiring.remove(k);
                        proof {
                            assert forall|j: int| 0 <= j < self.retiring().len() implies (#[trigger] self.retiring()[j]).closed by {
                                let oj = if j < k { j } else { j + 1 };
                                assert(self.retiring()[j] == before.retiring()[oj]);
                            }
                        }
                        Some((slot.addr, slot.opened_at))
                    },
                    None => None,
                }
            },
        }
    }

    /// After a connection to `a` opened at `opened_at` failed at `now`:
    /// blacklisted for a backoff from the reconnect window if it was
    /// short-lived, penalties unchanged otherwise.
    pub open spec fn failure_penalty(&self, before: &Lazy<I>, a: Endpoint, opened_at: u64, now: u64) -> bool {
        if before.short_lived(opened_at, now) {
            exists|e: u64| #[trigger] before.penalty_in_window(now, e)
                && self.penalties() == after_blacklist(before.penalties(), a, e)
        } else {
            self.penalties() == before.penalties()
        }
    }

    /// The driver of connection `id` closed it as asked: the connection
    /// leaves. Returns whether there was such a connection.
    pub fn sink_closed(&mut self, id: u64) -> (r: bool)
        requires
            old(self).wf(),
        ensures
            final(self).wf(),
            final(self).conn_limit() == old(self).conn_limit(),
            final(self).reconnect_ms() == old(self).reconnect_ms(),
            final(self).penalties() == old(self).penalties(),
            final(self).ready() == old(self).ready(),
            final(self).attempts() == old(self).attempts(),
            final(self).aborted() == old(self).aborted(),
            forall|k: int| #[trigger] old(self).slot_index(id, k) ==> {
                &&& r
                &&& final(self).slots() == old(self).slots().remove(k)
                &&& final(self).retiring() == old(self).retiring()
                &&& final(self).uses_of() == after_put(old(self).uses_of(), old(self).slots()[k].addr)
            },
            old(self).no_slot(id) ==> final(self).slots() == old(self).slots() && final(self).uses_of() == old(self).uses_of(),
            old(self).no_slot(id) ==> forall|k: int| #[trigger] old(self).retiring_index(id, k) ==> {
                &&& r
                &&& final(self).retiring() == old(self).retiring().remove(k)
            },
            old(self).no_slot(id) && old(self).no_retiring(id) ==> !r && final(self).retiring() == old(self).retiring(),
    {
        let r = self.end_connection(id);
        r.is_some()
    }

    /// The connection `id` failed. If there was such a connection it leaves
    /// (its use count drops if it counted), its endpoint is returned, and
    /// when it was short-lived its endpoint is blacklisted for a backoff
    /// drawn from the reconnect window.
    pub fn disconnected(&mut self, id: u64, now: u64) -> (r: Option<Endpoint>)
        requires
            old(self).wf(),
        ensures
            final(self).wf(),
            final(self).conn_limit() == old(self).conn_limit(),
            final(self).reconnect_ms() == old(self).reconnect_ms(),
            final(self).ready() == old(self).ready(),
            final(self).attempts() == old(self).attempts(),
            final(self).aborted() == old(self).aborted(),
            forall|k: int| #[trigger] old(self).slot_index(id, k) ==> {
                &&& r == Some(old(self).slots()[k].addr)
                &&& final(self).slots() == old(self).slots().remove(k)
                &&& final(self).retiring() == old(self).retiring()
                &&& final(self).uses_of() == after_put(old(self).uses_of(), old(self).slots()[k].addr)
                &&& final(self).failure_penalty(old(self), old(self).slots()[k].addr, old(self).slots()[k].opened_at, now)
            },
            old(self).no_slot(id) ==> final(self).slots() == old(self).slots() && final(self).uses_of() == old(self).uses_of(),
            old(self).no_slot(id) ==> forall|k: int| #[trigger] old(self).retiring_index(id, k) ==> {
                &&& r == Some(old(self).retiring()[k].addr)
                &&& final(self).retiring() == old(self).retiring().remove(k)
                &&& final(self).failure_penalty(old(self), old(self).retiring()[k].addr, old(self).retiring()[k].opened_at, now)
            },
            old(self).no_slot(id) && old(self).no_retiring(id) ==> r.is_none() && final(self).retiring() == old(self).retiring()
                && final(self).penalties() == old(self).penalties(),
    {
        let ghost before = *self;
        match self.end_connection(id) {
            Some((a, opened_at)) => {
                let ghost mid = *self;
                if now.saturating_sub(opened_at) < self.reconnect_ms.0 {
                    let until = self.penalty_until(now);
                    self.blist.blacklist(a, until);
                    proof {
                        assert(before.penalty_in_window(now, until));
                        assert(self.penalties() == after_blacklist(before.penalties(), a, until));
                    }
                }
                proof {
                    assert(self.slots() == mid.slots());
                    assert(self.retiring() == mid.retiring());
                    assert(self.uses_of() == mid.uses_of());
                    assert(before.short_lived(opened_at, now) == (now.saturating_sub(opened_at) < self.reconnect_ms.0));
                }
                Some(a)
            },
            None => None,
        }
    }

    /// A new address snapshot: endpoints that left it are forgotten by the
    /// aligner, and their connect attempts and connections are retired (the
    /// connections are marked closed, so that their drivers close them once
    /// the requests they hold are sent); endpoints that joined start at use
    /// count zero. Returns the ids of the drivers retired, which are to be
    /// woken. A snapshot with the same endpoints as the current one changes
    /// nothing.
    pub fn update_addresses(&mut self, snapshot: &Vec<Endpoint>) -> (r: Vec<u64>)
        requires
            old(self).wf(),
        ensures
            final(self).wf(),
            final(self).conn_limit() == old(self).conn_limit(),
            final(self).reconnect_ms() == old(self).reconnect_ms(),
            final(self).penalties() == old(self).penalties(),
            final(self).is_closing() == old(self).is_closing(),
            final(self).ready() == old(self).ready(),
            final(self).drivers() == old(self).drivers(),
            forall|a: Endpoint| final(self).snapshot().contains(a) <==> snapshot@.contains(a),
            forall|a: Endpoint| #[trigger] final(self).uses_of().contains_key(a) ==>
                final(self).uses_of()[a] == (if old(self).uses_of().contains_key(a) { old(self).uses_of()[a] } else { 0 }),
            forall|a: Endpoint| #[trigger] final(self).uses_of().contains_key(a) && old(self).uses_of().contains_key(a) ==>
                final(self).uses(a) == old(self).uses(a),
            final(self).attempts() == select(old(self).attempts(), attempt_stays(old(self).snapshot(), snapshot@)),
            final(self).aborted() == old(self).aborted() + select(old(self).attempts(), attempt_leaves(old(self).snapshot(), snapshot@)),
            final(self).slots() == select(old(self).slots(), slot_stays::<I>(old(self).snapshot(), snapshot@)),
            final(self).retiring() == old(self).retiring()
                + retire_all(select(old(self).slots(), slot_leaves::<I>(old(self).snapshot(), snapshot@))),
            r@ == attempt_ids(select(old(self).attempts(), attempt_leaves(old(self).snapshot(), snapshot@)))
                + slot_ids(select(old(self).slots(), slot_leaves::<I>(old(self).snapshot(), snapshot@))),
            (forall|a: Endpoint| snapshot@.contains(a) <==> old(self).snapshot().contains(a)) ==> {
                &&& final(self).uses_of() == old(self).uses_of()
                &&& r@.len() == 0
                &&& final(self).attempts() == old(self).attempts()
                &&& final(self).slots() == old(self).slots()
                &&& final(self).retiring() == old(self).retiring()
                &&& final(self).aborted() == old(self).aborted()
            },
    {
        let next = distinct_addrs(snapshot);
        let added = addrs_not_in(&next, &self.cur_address);
        let removed = addrs_not_in(&self.cur_address, &next);
        let mut out: Vec<u64> = Vec::new();
        if added.len() == 0 && removed.len() == 0 {
            proof {
                assert forall|a: Endpoint| self.snapshot().contains(a) <==> snapshot@.contains(a) by {
                    if self.snapshot().contains(a) && !next@.contains(a) {
                        assert(removed@.contains(a));
                    }
                    if next@.contains(a) && !self.snapshot().contains(a) {
                        assert(added@.contains(a));
                    }
                }
                let o = self.snapshot();
                let n2 = snapshot@;
                assert forall|j: int| 0 <= j < self.attempts().len() implies #[trigger] attempt_stays(o, n2)(self.attempts()[j])
                    && !attempt_leaves(o, n2)(self.attempts()[j]) by {
                    assert(self.uses_of().contains_key(self.attempts()[j].addr));
                }
                assert forall|j: int| 0 <= j < self.slots().len() implies #[trigger] slot_stays::<I>(o, n2)(self.slots()[j])
                    && !slot_leaves::<I>(o, n2)(self.slots()[j]) by {
                    assert(self.uses_of().contains_key(self.slots()[j].addr));
                }
                assert forall|j: int| 0 <= j < self.attempts().len() implies !#[trigger] attempt_leaves(o, n2)(self.attempts()[j]) by {
                    assert(attempt_stays(o, n2)(self.attempts()[j]));
                }
                assert forall|j: int| 0 <= j < self.slots().len() implies !#[trigger] slot_leaves::<I>(o, n2)(self.slots()[j]) by {
                    assert(slot_stays::<I>(o, n2)(self.slots()[j]));
                }
                lemma_select_all(self.attempts(), attempt_stays(o, n2));
                lemma_select_none(self.attempts(), attempt_leaves(o, n2));
                lemma_select_all(self.slots(), slot_stays::<I>(o, n2));
                lemma_select_none(self.slots(), slot_leaves::<I>(o, n2));
                assert(attempt_ids(Seq::<Attempt>::empty()) =~= Seq::<u64>::empty());
                assert(slot_ids(Seq::<Slot<I>>::empty()) =~= Seq::<u64>::empty());
                assert(retire_all(Seq::<Slot<I>>::empty()) =~= Seq::<Slot<I>>::empty());
                assert(self.aborted() + Seq::<Attempt>::empty() =~= self.aborted());
                assert(self.retiring() + Seq::<Slot<I>>::empty() =~= self.retiring());
                assert(out@ =~= Seq::<u64>::empty() + Seq::<u64>::empty());
            }
            return out;
        }
        let ghost before = *self;
        let ghost rem = removed@;
        let ghost add = added@;
        let ghost osnap = before.snapshot();
        let ghost nsnap = snapshot@;
        proof {
            assert forall|a: Endpoint| rem.contains(a) <==> osnap.contains(a) && !nsnap.contains(a) by {}
        }
        let mut old_attempts: Vec<Attempt> = Vec::new();
        std::mem::swap(&mut self.attempts, &mut old_attempts);
        let mut i: usize = 0;
        while i < old_attempts.len()
            invariant
                self.inner_wf(),
                self.aligner == before.aligner,
                self.blist == before.blist,
                self.slots == before.slots,
                self.retiring == before.retiring,
                self.ready == before.ready,
                self.cur_address == before.cur_address,
                self.closing == before.closing,
                self.conn_limit == before.conn_limit,
                self.reconnect_ms == before.reconnect_ms,
                old_attempts@ == before.attempts(),
                before.wf(),
                removed@ == rem,
                i <= old_attempts@.len(),
                forall|a: Endpoint| !rem.contains(a) ==>
                    count_where(self.attempts@, attempt_to(a)) == count_where(old_attempts@.subrange(0, i as int), attempt_to(a)),
                forall|j: int| 0 <= j < self.attempts@.len() ==> !rem.contains(#[trigger] self.attempts@[j].addr)
                    && before.uses_of().contains_key(self.attempts@[j].addr),
                self.attempts@.len() + self.aborted@.len() == before.aborted().len() + i,
                out@.len() + before.aborted().len() == self.aborted@.len(),
                osnap == before.snapshot(),
                nsnap == snapshot@,
                forall|a: Endpoint| rem.contains(a) <==> osnap.contains(a) && !nsnap.contains(a),
                self.attempts@ == select(old_attempts@.subrange(0, i as int), attempt_stays(osnap, nsnap)),
                self.aborted@ == before.aborted() + select(old_attempts@.subrange(0, i as int), attempt_leaves(osnap, nsnap)),
                out@ == attempt_ids(select(old_attempts@.subrange(0, i as int), attempt_leaves(osnap, nsnap))),
            decreases old_attempts@.len() - i,
        {
            let t = old_attempts[i];
            proof {
                assert(old_attempts@.subrange(0, i + 1 as int) =~= old_attempts@.subrange(0, i as int).push(t));
                let sub = old_attempts@.subrange(0, i as int);
                lemma_select_push(sub, t, attempt_stays(osnap, nsnap));
                lemma_select_push(sub, t, attempt_leaves(osnap, nsnap));
                lemma_attempt_ids_push(select(sub, attempt_leaves(osnap, nsnap)), t);
                assert(rem.contains(t.addr) == attempt_leaves(osnap, nsnap)(t));
                assert(before.aborted() + select(sub, attempt_leaves(osnap, nsnap)).push(t)
                    =~= (before.aborted() + select(sub, attempt_leaves(osnap, nsnap))).push(t));
                assert(before.uses_of().contains_key(before.attempts()[i as int].addr));
            }
            if contains_addr(&removed, t.addr) {
                self.aborted.push(t);
                out.push(t.id);
                proof {
                    assert forall|a: Endpoint| !rem.contains(a) implies
                        count_where(self.attempts@, attempt_to(a)) == count_where(old_attempts@.subrange(0, i + 1 as int), attempt_to(a)) by {
                        lemma_count_push(old_attempts@.subrange(0, i as int), t, attempt_to(a));
                    }
                }
            } else {
                let ghost prev = self.attempts@;
                self.attempts.push(t);
                proof {
                    assert forall|a: Endpoint| !rem.contains(a) implies
                        count_where(self.attempts@, attempt_to(a)) == count_where(old_attempts@.subrange(0, i + 1 as int), attempt_to(a)) by {
                        lemma_count_push(old_attempts@.subrange(0, i as int), t, attempt_to(a));
                        lemma_count_push(prev, t, attempt_to(a));
                    }
                    assert forall|j: int| 0 <= j < self.attempts@.len() implies !rem.contains(#[trigger] self.attempts@[j].addr)
                        && before.uses_of().contains_key(self.attempts@[j].addr) by {
                        if j < prev.len() {
                            assert(self.attempts@[j] == prev[j]);
                        }
                    }
                }
            }
            i = i + 1;
        }
        proof {
            assert(old_attempts@.subrange(0, i as int) =~= before.attempts());
        }
        let mut old_slots: Vec<Slot<I>> = Vec::new();
        std::mem::swap(&mut self.slots, &mut old_slots);
        let mut k: usize = 0;
        let n_slots = old_slots.len();
        let ghost n = n_slots as nat;
        proof {
            assert(old_slots@ =~= before.slots().subrange(0, n as int));
            let e = before.slots().subrange(0, 0);
            assert(e =~= Seq::<Slot<I>>::empty());
            assert(select(e, slot_stays::<I>(osnap, nsnap)) =~= Seq::<Slot<I>>::empty());
            assert(select(e, slot_leaves::<I>(osnap, nsnap)) =~= Seq::<Slot<I>>::empty());
            assert(retire_all(Seq::<Slot<I>>::empty()) =~= Seq::<Slot<I>>::empty());
            assert(slot_ids(Seq::<Slot<I>>::empty()) =~= Seq::<u64>::empty());
            assert(self.retiring@ =~= before.retiring() + Seq::<Slot<I>>::empty());
            assert(out@ =~= out@ + Seq::<u64>::empty());
        }
        while old_slots.len() > 0
            invariant
                self.inner_wf(),
                self.aligner == before.aligner,
                self.blist == before.blist,
                self.ready == before.ready,
                self.cur_address == before.cur_address,
                self.closing == before.closing,
                self.conn_limit == before.conn_limit,
                self.reconnect_ms == before.reconnect_ms,
                self.aborted@.len() == before.aborted().len() + out@.len() - (self.retiring@.len() - before.retiring().len()),
                self.retiring@.len() >= before.retiring().len(),
                self.attempts@.len() + self.aborted@.len() == before.attempts().len() + before.aborted().len(),
                removed@ == rem,
                before.wf(),
                n == before.slots().len(),
                n <= usize::MAX,
                k <= n,
                old_slots@ == before.slots().subrange(k as int, n as int),
                forall|a: Endpoint| !rem.contains(a) ==>
                    count_where(self.attempts@, attempt_to(a)) == count_where(before.attempts(), attempt_to(a)),
                forall|j: int| 0 <= j < self.attempts@.len() ==> !rem.contains(#[trigger] self.attempts@[j].addr)
                    && before.uses_of().contains_key(self.attempts@[j].addr),
                forall|a: Endpoint| !rem.contains(a) ==>
                    count_where(self.slots@, slot_to::<I>(a)) == count_where(before.slots().subrange(0, k as int), slot_to::<I>(a)),
                forall|j: int| 0 <= j < self.slots@.len() ==> !rem.contains(#[trigger] self.slots@[j].addr),
                forall|j: int| 0 <= j < self.slots@.len() ==> before.uses_of().contains_key(#[trigger] self.slots@[j].addr),
                forall|j: int| 0 <= j < self.slots@.len() ==> (#[trigger] self.slots@[j]).pending.is_some() ==> !self.slots@[j].queued,
                forall|j: int| 0 <= j < self.slots@.len() ==> !self.closing ==> !(#[trigger] self.slots@[j]).closed,
                forall|j: int| 0 <= j < self.retiring@.len() ==> (#[trigger] self.retiring@[j]).closed,
                self.slots@.len() + self.retiring@.len() == before.retiring().len() + k,
                osnap == before.snapshot(),
                nsnap == snapshot@,
                forall|a: Endpoint| rem.contains(a) <==> osnap.contains(a) && !nsnap.contains(a),
                self.attempts@ == select(before.attempts(), attempt_stays(osnap, nsnap)),
                self.aborted@ == before.aborted() + select(before.attempts(), attempt_leaves(osnap, nsnap)),
                self.slots@ == select(before.slots().subrange(0, k as int), slot_stays::<I>(osnap, nsnap)),
                self.retiring@ == before.retiring()
                    + retire_all(select(before.slots().subrange(0, k as int), slot_leaves::<I>(osnap, nsnap))),
                out@ == attempt_ids(select(before.attempts(), attempt_leaves(osnap, nsnap)))
                    + slot_ids(select(before.slots().subrange(0, k as int), slot_leaves::<I>(osnap, nsnap))),
            decreases old_slots@.len(),
        {
            proof {
                assert(old_slots@.len() == n - k);
            }
            let mut sl = old_slots.remove(0);
            proof {
                assert(sl == before.slots()[k as int]);
                assert(before.slots().subrange(0, k + 1 as int) =~= before.slots().subrange(0, k as int).push(sl));
                assert(old_slots@ =~= before.slots().subrange(k + 1 as int, n as int));
                assert(before.uses_of().contains_key(before.slots()[k as int].addr));
                let sub = before.slots().subrange(0, k as int);
                lemma_select_push(sub, sl, slot_stays::<I>(osnap, nsnap));
                lemma_select_push(sub, sl, slot_leaves::<I>(osnap, nsnap));
                lemma_slot_seqs_push(select(sub, slot_leaves::<I>(osnap, nsnap)), sl);
                assert(rem.contains(sl.addr) == slot_leaves::<I>(osnap, nsnap)(sl));
                assert(retired(sl).id == sl.id);
            }
            let ghost sl0 = sl;
            let ghost s0 = self.slots@;
            if contains_addr(&removed, sl.addr) {
                sl.closed = true;
                out.push(sl.id);
                let ghost prev = self.retiring@;
                self.retiring.push(sl);
                proof {
                    let sub = before.slots().subrange(0, k as int);
                    let lv = select(sub, slot_leaves::<I>(osnap, nsnap));
                    assert(sl == retired(sl0));
                    assert(self.retiring@ =~= before.retiring() + retire_all(lv).push(retired(sl0)));
                    assert(out@ =~= attempt_ids(select(before.attempts(), attempt_leaves(osnap, nsnap))) + slot_ids(lv).push(sl0.id));
                    assert(self.slots@ == s0);
                    assert forall|j: int| 0 <= j < self.slots@.len() implies {
                        &&& !rem.contains(#[trigger] self.slots@[j].addr)
                        &&& before.uses_of().contains_key(self.slots@[j].addr)
                        &&& self.slots@[j].pending.is_some() ==> !self.slots@[j].queued
                        &&& !self.closing ==> !self.slots@[j].closed
                    } by {
                        assert(self.slots@[j] == s0[j]);
                        assert(!rem.contains(s0[j].addr));
                    }
                    assert forall|a: Endpoint| !rem.contains(a) implies
                        count_where(self.slots@, slot_to::<I>(a)) == count_where(before.slots().subrange(0, k + 1 as int), slot_to::<I>(a)) by {
                        lemma_count_push(before.slots().subrange(0, k as int), before.slots()[k as int], slot_to::<I>(a));
                    }
                    assert forall|j: int| 0 <= j < self.retiring@.len() implies (#[trigger] self.retiring@[j]).closed by {
                        if j < prev.len() {
                            assert(self.retiring@[j] == prev[j]);
                        }
                    }
                }
            } else {
                let ghost prev = self.slots@;
                self.slots.push(sl);
                proof {
                    assert forall|a: Endpoint| !rem.contains(a) implies
                        count_where(self.slots@, slot_to::<I>(a)) == count_where(before.slots().subrange(0, k + 1 as int), slot_to::<I>(a)) by {
                        lemma_count_push(before.slots().subrange(0, k as int), before.slots()[k as int], slot_to::<I>(a));
                        lemma_count_push(prev, before.slots()[k as int], slot_to::<I>(a));
                    }
                    assert forall|j: int| 0 <= j < self.slots@.len() implies {
                        &&& !rem.contains(#[trigger] self.slots@[j].addr)
                        &&& before.uses_of().contains_key(self.slots@[j].addr)
                        &&& self.slots@[j].pending.is_some() ==> !self.slots@[j].queued
                        &&& !self.closing ==> !self.slots@[j].closed
                    } by {
                        if j < prev.len() {
                            assert(self.slots@[j] == prev[j]);
                            assert(!rem.contains(prev[j].addr));
                        } else {
                            let o = before.slots()[k as int];
                            assert(self.slots@[j] == o);
                            assert(o.pending.is_some() ==> !o.queued);
                            assert(!before.is_closing() ==> !o.closed);
                            assert(!rem.contains(o.addr));
                            assert(before.uses_of().contains_key(o.addr));
                            assert(self.closing == before.is_closing());
                        }
                    }
                }
            }
            k = k + 1;
        }
        proof {
            assert(before.slots().subrange(0, k as int) =~= before.slots());
        }
        self.aligner.update(added, removed);
        self.cur_address = next;
        proof {
            let m0 = before.uses_of();
            assert forall|a: Endpoint| #[trigger] self.uses_of().contains_key(a) <==> self.snapshot().contains(a) by {
                assert(m0.contains_key(a) <==> before.snapshot().contains(a));
                if self.snapshot().contains(a) {
                    if before.snapshot().contains(a) {
                        assert(!rem.contains(a));
                    } else {
                        assert(add.contains(a));
                    }
                }
            }
            assert forall|a: Endpoint| #[trigger] self.uses_of().contains_key(a) implies
                self.uses_of()[a] == self.uses(a)
                && self.uses_of()[a] <= self.conn_limit()
                && self.uses_of()[a] == (if m0.contains_key(a) { m0[a] } else { 0 }) by {
                assert(!rem.contains(a));
                if !m0.contains_key(a) {
                    assert forall|j: int| 0 <= j < before.attempts().len() implies !(#[trigger] attempt_to(a)(before.attempts()[j])) by {
                        assert(m0.contains_key(before.attempts()[j].addr));
                    }
                    lemma_count_none(before.attempts(), attempt_to(a));
                    assert forall|j: int| 0 <= j < before.slots().len() implies !(#[trigger] slot_to::<I>(a)(before.slots()[j])) by {
                        assert(m0.contains_key(before.slots()[j].addr));
                    }
                    lemma_count_none(before.slots(), slot_to::<I>(a));
                }
            }
            assert forall|j: int| 0 <= j < self.attempts().len() implies self.uses_of().contains_key(#[trigger] self.attempts()[j].addr) by {
                assert(!rem.contains(self.attempts@[j].addr));
            }
            assert forall|j: int| 0 <= j < self.slots().len() implies self.uses_of().contains_key(#[trigger] self.slots()[j].addr) by {
                assert(!rem.contains(self.slots@[j].addr));
            }
            assert forall|j: int| 0 <= j < self.slots().len() implies (#[trigger] self.slots()[j]).pending.is_some() ==> !self.slots()[j].queued by {
                assert(!rem.contains(self.slots@[j].addr));
            }
            assert forall|j: int| 0 <= j < self.slots().len() implies !self.is_closing() ==> !(#[trigger] self.slots()[j]).closed by {
                assert(!rem.contains(self.slots@[j].addr));
            }
            assert forall|a: Endpoint| #[trigger] self.uses_of().contains_key(a) && m0.contains_key(a) implies
                self.uses(a) == before.uses(a) by {
                assert(!rem.contains(a));
            }
            if forall|a: Endpoint| snapshot@.contains(a) <==> before.snapshot().contains(a) {
                assert(false) by {
                    if added@.len() > 0 {
                        assert(added@.contains(added@[0]));
                    } else {
                        assert(removed@.contains(removed@[0]));
                    }
                }
            }
        }
        out
    }

    /// The live connections are those of `other` but for their `queued` flags.
    /// The live connections are those of `other`, but that closed ones (and
    /// the one at `except`) may have left the ready queue.
    pub open spec fn closed_dequeued(&self, other: &Lazy<I>, except: int) -> bool {
        &&& self.slots().len() == other.slots().len()
        &&& forall|j: int| 0 <= j < self.slots().len() && j != except ==> {
            ||| #[trigger] self.slots()[j] == other.slots()[j]
            ||| other.slots()[j].closed && self.slots()[j] == with_queued(other.slots()[j], false)
        }
    }

    pub open spec fn same_slots_but_queued(&self, other: &Lazy<I>) -> bool {
        &&& self.slots().len() == other.slots().len()
        &&& forall|i: int| 0 <= i < self.slots().len() ==> {
            &&& (#[trigger] self.slots()[i]).id == other.slots()[i].id
            &&& self.slots()[i].addr == other.slots()[i].addr
            &&& self.slots()[i].pending == other.slots()[i].pending
            &&& self.slots()[i].closed == other.slots()[i].closed
            &&& self.slots()[i].opened_at == other.slots()[i].opened_at
        }
    }

    /// Offer `item` at instant `now`.
    ///
    /// A closing pool hands the request back, and reports `Done` once no
    /// driver runs. Otherwise the ready queue is taken from the front, and
    /// the request goes to the first connection in it that can take it.
    /// When none can, the aligner is asked for an endpoint to connect to;
    /// when it has none, blacklist entries due at `now` are lifted and it is
    /// asked once more.
    pub fn start_send(&mut self, item: I, now: u64) -> (r: SendStep<I>)
        requires
            old(self).wf(),
        ensures
            final(self).wf(),
            final(self).conn_limit() == old(self).conn_limit(),
            final(self).reconnect_ms() == old(self).reconnect_ms(),
            final(self).snapshot() == old(self).snapshot(),
            final(self).is_closing() == old(self).is_closing(),
            final(self).retiring() == old(self).retiring(),
            final(self).aborted() == old(self).aborted(),
            forall|a: Endpoint| final(self).lifted().contains(a) <==> old(self).lifted().contains(a)
                || (old(self).penalties().contains_key(a) && !final(self).penalties().contains_key(a)),
            old(self).is_closing() ==> {
                &&& final(self).ready() == old(self).ready()
                &&& final(self).uses_of() == old(self).uses_of()
                &&& final(self).penalties() == old(self).penalties()
                &&& final(self).attempts() == old(self).attempts()
                &&& final(self).slots() == old(self).slots()
                &&& if old(self).drivers() == 0 { r == SendStep::Done(item) } else { r == SendStep::Wait(item) }
            },
            !old(self).is_closing() ==> !(r is Done),
            r matches SendStep::Deposited(id) ==> exists|k: int| {
                &&& 0 <= k < old(self).ready().len()
                &&& (#[trigger] old(self).ready()[k]) == id
                &&& final(self).ready() == old(self).ready().subrange(k + 1, old(self).ready().len() as int)
                &&& forall|j: int| 0 <= j < k ==> !old(self).accepts(#[trigger] old(self).ready()[j])
                &&& final(self).uses_of() == old(self).uses_of()
                &&& final(self).penalties() == old(self).penalties()
                &&& final(self).attempts() == old(self).attempts()
            },
            r matches SendStep::Deposited(id) ==> exists|i: int| old(self).slot_index(id, i)
                && !(#[trigger] old(self).slots()[i]).closed && old(self).slots()[i].pending.is_none()
                && final(self).slots()[i] == holding(old(self).slots()[i], item)
                && final(self).closed_dequeued(old(self), i),
            !old(self).is_closing() && !(r is Deposited) ==> {
                &&& final(self).ready().len() == 0
                &&& forall|j: int| 0 <= j < old(self).ready().len() ==> !old(self).accepts(#[trigger] old(self).ready()[j])
                &&& final(self).same_slots_but_queued(old(self))
                &&& final(self).closed_dequeued(old(self), -1)
                &&& final(self).penalties() == old(self).penalties()
                    || final(self).penalties() == after_expire(old(self).penalties(), now)
            },
            r matches SendStep::Connect(id, addr, x) ==> {
                &&& x == item
                &&& final(self).attempts() == old(self).attempts().push(Attempt { id, addr })
                &&& final(self).uses_of() == after_get(old(self).uses_of(), addr)
                &&& is_fair_pick(old(self).uses_of(), final(self).penalties(), old(self).conn_limit(), addr)
                &&& !(old(self).penalties().contains_key(addr) && old(self).penalties()[addr] > now)
            },
            r matches SendStep::Wait(x) ==> x == item && (!old(self).is_closing() ==> {
                &&& final(self).attempts() == old(self).attempts()
                &&& final(self).uses_of() == old(self).uses_of()
                &&& !any_eligible(old(self).uses_of(), after_expire(old(self).penalties(), now), old(self).conn_limit())
            }),
    {
        if self.closing {
            if self.no_drivers() {
                return SendStep::Done(item);
            } else {
                return SendStep::Wait(item);
            }
        }
        let ghost before = *self;
        let ghost n = self.ready@.len();
        let ghost mut k: int = 0;
        let mut target: Option<(u64, usize)> = None;
        while target.is_none() && self.ready.len() > 0
            invariant
                self.wf(),
                before.wf(),
                before == *old(self),
                !self.closing,
                self.same_but_slots(&before),
                self.retiring() == before.retiring(),
                self.same_slots_but_queued(&before),
                forall|j: int| 0 <= j < self.slots().len() ==> {
                    ||| #[trigger] self.slots()[j] == before.slots()[j]
                    ||| self.slots()[j] == with_queued(before.slots()[j], false)
                        && (before.slots()[j].closed || (target.is_some() && target.unwrap().1 == j))
                },
                self.blist == before.blist,
                self.next_id == before.next_id,
                self.lifted == before.lifted,
                0 <= k <= n,
                n == before.ready().len(),
                self.ready@ == before.ready().subrange(k, n as int),
                target.is_none() ==> forall|j: int| 0 <= j < k ==> !before.accepts(#[trigger] before.ready()[j]),
                target matches Some(t) ==> {
                    &&& k > 0
                    &&& before.ready()[k - 1] == t.0
                    &&& forall|j: int| 0 <= j < k - 1 ==> !before.accepts(#[trigger] before.ready()[j])
                    &&& before.slot_index(t.0, t.1 as int)
                    &&& !before.slots()[t.1 as int].closed
                    &&& before.slots()[t.1 as int].pending.is_none()
                },
            decreases self.ready@.len(),
        {
            let ghost cur = *self;
            match self.ready.pop_front() {
                None => {},
                Some(id) => {
                    proof {
                        assert(id == before.ready()[k]);
                        assert(self.ready@ =~= before.ready().subrange(k + 1, n as int));
                        k = k + 1;
                    }
                    match self.find_slot(id) {
                        Some(i) => {
                            let ghost c2 = *self;
                            self.slots[i].queued = false;
                            proof {
                                assert(self.slots() =~= c2.slots().update(i as int, self.slots()[i as int]));
                                c2.lemma_slot_update(self, i as int);
                                assert(c2.slot_index(id, i as int));
                                assert forall|j: int| 0 <= j < i implies before.slots()[j].id != id by {
                                    assert(cur.slots()[j].id == before.slots()[j].id);
                                    assert(c2.slots()[j].id != id);
                                }
                                assert(cur.slots()[i as int].id == before.slots()[i as int].id);
                                assert(before.slot_index(id, i as int));
                            }
                            proof {
                                let o = before.slots()[i as int];
                                assert(self.slots()[i as int] == with_queued(c2.slots()[i as int], false));
                                assert(c2.slots()[i as int] == cur.slots()[i as int]);
                                assert(self.slots()[i as int] == with_queued(o, false));
                                if o.pending.is_some() {
                                    assert(!o.queued);
                                    assert(with_queued(o, false) == o);
                                }
                                assert forall|j: int| 0 <= j < self.slots().len() && j != i implies
                                    self.slots()[j] == cur.slots()[j] by {}
                            }
                            if !self.slots[i].closed && self.slots[i].pending.is_none() {
                                target = Some((id, i));
                            } else {
                                proof {
                                    assert forall|q: int| #[trigger] before.slot_index(id, q) implies q == i by {
                                        if q < i { assert(before.slots()[q].id != id); }
                                        if q > i { assert(before.slots()[i as int].id != id); }
                                    }
                                    assert(!before.accepts(id));
                                }
                            }
                        },
                        None => {
                            proof {
                                assert forall|q: int| #[trigger] before.slot_index(id, q) implies false by {
                                    assert(cur.slots()[q].id == before.slots()[q].id);
                                }
                                assert(!before.accepts(id));
                            }
                        },
                    }
                },
            }
        }
        match target {
            Some((id, i)) => {
                let ghost c3 = *self;
                self.slots[i].queued = false;
                self.slots[i].pending = Some(item);
                proof {
                    assert(self.slots() =~= c3.slots().update(i as int, self.slots()[i as int]));
                    c3.lemma_slot_update(self, i as int);
                    let kk = k - 1;
                    assert(old(self).ready()[kk] == id);
                    assert(old(self).slot_index(id, i as int));
                    assert(self.ready() == old(self).ready().subrange(kk + 1, old(self).ready().len() as int));
                    assert(forall|j: int| 0 <= j < kk ==> !old(self).accepts(#[trigger] old(self).ready()[j]));
                    assert(self.slots()[i as int].pending == Some(item));
                    assert(self.slots()[i as int] == holding(before.slots()[i as int], item));
                    assert forall|j: int| 0 <= j < self.slots().len() && j != i implies
                        self.slots()[j] == c3.slots()[j] by {}
                    assert(self.closed_dequeued(&before, i as int));
                    assert(!before.slots()[i as int].closed);
                    assert(before.slots()[i as int].pending.is_none());
                    assert(!old(self).slots()[i as int].closed);
                    assert(old(self).slots()[i as int].pending.is_none());
                    assert(self.uses_of() == old(self).uses_of());
                    assert(self.penalties() == old(self).penalties());
                    assert(self.attempts() == old(self).attempts());
                }
                return SendStep::Deposited(id);
            },
            None => {},
        }
        proof {
            assert(k == n);
        }
        match self.provision(now) {
            Some((id, addr)) => SendStep::Connect(id, addr, item),
            None => SendStep::Wait(item),
        }
    }

    /// Hand out the endpoints whose penalties were lifted since the last
    /// call, in the order they were lifted.
    pub fn take_lifted(&mut self) -> (r: Vec<Endpoint>)
        requires
            old(self).wf(),
        ensures
            final(self).wf(),
            r@ == old(self).lifted(),
            final(self).lifted().len() == 0,
            final(self).same_but_slots(old(self)),
            final(self).slots() == old(self).slots(),
            final(self).retiring() == old(self).retiring(),
            final(self).ready() == old(self).ready(),
    {
        let ghost before = *self;
        let mut out: Vec<Endpoint> = Vec::new();
        std::mem::swap(&mut self.lifted, &mut out);
        proof {
            before.lemma_wf_other_drivers(self);
        }
        out
    }

    /// Open a connection without waiting for a request (for pools that
    /// connect eagerly): unless the pool is closing, ask the aligner for an
    /// endpoint as `start_send` does when no connection can take a request,
    /// and return the id and endpoint of the attempt to start.
    pub fn connect_eagerly(&mut self, now: u64) -> (r: Option<(u64, Endpoint)>)
        requires
            old(self).wf(),
        ensures
            final(self).wf(),
            final(self).conn_limit() == old(self).conn_limit(),
            final(self).reconnect_ms() == old(self).reconnect_ms(),
            final(self).snapshot() == old(self).snapshot(),
            final(self).is_closing() == old(self).is_closing(),
            final(self).slots() == old(self).slots(),
            final(self).retiring() == old(self).retiring(),
            final(self).aborted() == old(self).aborted(),
            final(self).ready() == old(self).ready(),
            old(self).is_closing() ==> r.is_none() && final(self).uses_of() == old(self).uses_of()
                && final(self).attempts() == old(self).attempts(),
            forall|a: Endpoint| final(self).lifted().contains(a) <==> old(self).lifted().contains(a)
                || (old(self).penalties().contains_key(a) && !final(self).penalties().contains_key(a)),
            r matches Some((id, addr)) ==> {
                &&& final(self).attempts() == old(self).attempts().push(Attempt { id, addr })
                &&& final(self).uses_of() == after_get(old(self).uses_of(), addr)
                &&& is_fair_pick(old(self).uses_of(), final(self).penalties(), old(self).conn_limit(), addr)
                &&& !(old(self).penalties().contains_key(addr) && old(self).penalties()[addr] > now)
            },
            r.is_none() && !old(self).is_closing() ==> {
                &&& final(self).attempts() == old(self).attempts()
                &&& final(self).uses_of() == old(self).uses_of()
                &&& !any_eligible(old(self).uses_of(), after_expire(old(self).penalties(), now), old(self).conn_limit())
            },
    {
        if self.closing {
            return None;
        }
        self.provision(now)
    }

    /// Ask the aligner for an endpoint to connect to, lifting the penalties
    /// due at `now` when it has none the first time; record the attempt.
    fn provision(&mut self, now: u64) -> (r: Option<(u64, Endpoint)>)
        requires
            old(self).wf(),
        ensures
            final(self).wf(),
            final(self).conn_limit() == old(self).conn_limit(),
            final(self).reconnect_ms() == old(self).reconnect_ms(),
            final(self).snapshot() == old(self).snapshot(),
            final(self).is_closing() == old(self).is_closing(),
            final(self).slots() == old(self).slots(),
            final(self).retiring() == old(self).retiring(),
            final(self).aborted() == old(self).aborted(),
            final(self).ready() == old(self).ready(),
            final(self).penalties() == old(self).penalties()
                || final(self).penalties() == after_expire(old(self).penalties(), now),
            forall|a: Endpoint| final(self).lifted().contains(a) <==> old(self).lifted().contains(a)
                || (old(self).penalties().contains_key(a) && !final(self).penalties().contains_key(a)),
            r matches Some((id, addr)) ==> {
                &&& final(self).attempts() == old(self).attempts().push(Attempt { id, addr })
                &&& final(self).uses_of() == after_get(old(self).uses_of(), addr)
                &&& is_fair_pick(old(self).uses_of(), final(self).penalties(), old(self).conn_limit(), addr)
                &&& !(old(self).penalties().contains_key(addr) && old(self).penalties()[addr] > now)
            },
            r.is_none() ==> {
                &&& final(self).attempts() == old(self).attempts()
                &&& final(self).uses_of() == old(self).uses_of()
                &&& !any_eligible(old(self).uses_of(), after_expire(old(self).penalties(), now), old(self).conn_limit())
            },
    {
        let ghost drained = *self;
        let limit = self.conn_limit;
        let mut pick = self.aligner.get(limit, &self.blist);
        if pick.is_none() {
            let mut due = self.blist.poll(now);
            let any = due.len() > 0;
            let ghost ex = due@;
            let ghost l0 = self.lifted@;
            self.lifted.append(&mut due);
            proof {
                assert forall|a: Endpoint| self.lifted@.contains(a) <==> l0.contains(a) || ex.contains(a) by {
                    if self.lifted@.contains(a) {
                        let q = choose|q: int| 0 <= q < self.lifted@.len() && self.lifted@[q] == a;
                        if q < l0.len() {
                            assert(l0[q] == a);
                        } else {
                            assert(ex[q - l0.len()] == a);
                        }
                    }
                    if l0.contains(a) {
                        let q = choose|q: int| 0 <= q < l0.len() && l0[q] == a;
                        assert(self.lifted@[q] == a);
                    }
                    if ex.contains(a) {
                        let q = choose|q: int| 0 <= q < ex.len() && ex[q] == a;
                        assert(self.lifted@[l0.len() + q] == a);
                    }
                }
                assert forall|a: Endpoint| ex.contains(a) <==> drained.penalties().contains_key(a)
                    && !self.penalties().contains_key(a) by {
                    assert(ex.contains(a) <==> expired(drained.blist@, a, now));
                }
            }
            if any {
                pick = self.aligner.get(limit, &self.blist);
            } else {
                proof {
                    assert forall|a: Endpoint| #[trigger] self.blist@.contains_key(a) == drained.blist@.contains_key(a) by {
                        if drained.blist@.contains_key(a) && drained.blist@[a] <= now {
                            assert(ex.contains(a));
                        }
                    }
                    assert(self.blist@ =~= drained.blist@);
                }
            }
        }
        match pick {
            Some(addr) => {
                let id = self.next_id;
                self.next_id = self.next_id.wrapping_add(1);
                let ghost c4 = *self;
                self.attempts.push(Attempt { id, addr });
                proof {
                    assert forall|a: Endpoint| #[trigger] self.uses_of().contains_key(a) implies
                        self.uses_of()[a] == self.uses(a) && self.uses_of()[a] <= self.conn_limit() by {
                        lemma_count_push(drained.attempts(), Attempt { id, addr }, attempt_to(a));
                        assert(drained.uses_of().contains_key(a));
                    }
                    assert forall|a: Endpoint| #[trigger] self.uses_of().contains_key(a) <==> self.snapshot().contains(a) by {
                        assert(drained.uses_of().contains_key(a) <==> drained.snapshot().contains(a));
                    }
                    assert forall|j: int| 0 <= j < self.attempts().len() implies self.uses_of().contains_key(#[trigger] self.attempts()[j].addr) by {
                        if j < drained.attempts().len() {
                            assert(self.attempts()[j] == drained.attempts()[j]);
                            assert(drained.uses_of().contains_key(drained.attempts()[j].addr));
                        }
                    }
                    assert forall|j: int| 0 <= j < self.slots().len() implies self.uses_of().contains_key(#[trigger] self.slots()[j].addr) by {
                        assert(drained.uses_of().contains_key(drained.slots()[j].addr));
                    }
                }
                Some((id, addr))
            },
            None => None,
        }
    }

    /// Start closing the pool: every live connection is marked closed, so
    /// that its driver closes it once the request it holds is sent. Returns
    /// whether no driver runs any more.
    pub fn close(&mut self) -> (r: bool)
        requires
            old(self).wf(),
        ensures
            final(self).wf(),
            final(self).is_closing(),
            r == (final(self).drivers() == 0),
            final(self).drivers() == old(self).drivers(),
            final(self).uses_of() == old(self).uses_of(),
            final(self).penalties() == old(self).penalties(),
            final(self).attempts() == old(self).attempts(),
            final(self).ready() == old(self).ready(),
            forall|i: int| 0 <= i < final(self).slots().len() ==> (#[trigger] final(self).slots()[i]).closed,
    {
        let ghost open_state = *self;
        self.closing = true;
        let ghost before = *self;
        proof {
            assert(before.is_closing());
            assert(self.uses_of() == open_state.uses_of());
            assert(self.attempts() == open_state.attempts());
            assert(self.slots() == open_state.slots());
            assert(self.retiring() == open_state.retiring());
            assert(self.snapshot() == open_state.snapshot());
            assert(self.inner_wf());
            assert forall|a: Endpoint| #[trigger] self.uses_of().contains_key(a) implies
                self.uses_of()[a] == self.uses(a) && self.uses_of()[a] <= self.conn_limit() by {
                assert(open_state.uses_of().contains_key(a));
            }
            assert forall|a: Endpoint| #[trigger] self.uses_of().contains_key(a) <==> self.snapshot().contains(a) by {
                assert(open_state.uses_of().contains_key(a) <==> open_state.snapshot().contains(a));
            }
            assert forall|j: int| 0 <= j < self.attempts().len() implies self.uses_of().contains_key(#[trigger] self.attempts()[j].addr) by {
                assert(open_state.uses_of().contains_key(open_state.attempts()[j].addr));
            }
            assert forall|j: int| 0 <= j < self.slots().len() implies self.uses_of().contains_key(#[trigger] self.slots()[j].addr)
                && (self.slots()[j].pending.is_some() ==> !self.slots()[j].queued) by {
                assert(open_state.uses_of().contains_key(open_state.slots()[j].addr));
                assert(open_state.slots()[j].pending.is_some() ==> !open_state.slots()[j].queued);
            }
            assert forall|j: int| 0 <= j < self.retiring().len() implies (#[trigger] self.retiring()[j]).closed by {
                assert(open_state.retiring()[j].closed);
            }
        }
        let mut i: usize = 0;
        while i < self.slots.len()
            invariant
                self.wf(),
                self.same_but_slots(&before),
                self.retiring() == before.retiring(),
                self.ready() == before.ready(),
                self.slots().len() == before.slots().len(),
                self.is_closing(),
                i <= self.slots@.len(),
                forall|j: int| 0 <= j < i ==> (#[trigger] self.slots()[j]).closed,
            decreases self.slots@.len() - i,
        {
            let ghost c = *self;
            self.slots[i].closed = true;
            proof {
                assert(self.slots() =~= c.slots().update(i as int, self.slots()[i as int]));
                c.lemma_slot_update(self, i as int);
            }
            i = i + 1;
        }
        self.no_drivers()
    }

    /// The pool has stopped for good (`Done`) when it is closing and no
    /// driver runs any more; otherwise there is always more to do.
    pub fn poll_complete(&self) -> (r: Result<(), Done>)
        ensures
            r.is_err() <==> self.is_closing() && self.drivers() == 0,
    {
        if self.closing && self.no_drivers() {
            Err(Done)
        } else {
            Ok(())
        }
    }
}


/// The attempts in `s` add up, over endpoints without duplicates that
/// include every endpoint they target, to their number.
proof fn lemma_attempts_sum(s: Seq<Attempt>, keys: Seq<Endpoint>)
    requires
        keys.no_duplicates(),
        forall|i: int| 0 <= i < s.len() ==> keys.contains(#[trigger] s[i].addr),
    ensures
        s.len() == sum_over(keys, |a: Endpoint| count_where(s, attempt_to(a))),
    decreases s.len(),
{
    let f = |a: Endpoint| count_where(s, attempt_to(a));
    if s.len() == 0 {
        lemma_sum_zero(keys, f);
    } else {
        let rest = s.drop_last();
        let x = s.last();
        assert forall|i: int| 0 <= i < rest.len() implies keys.contains(#[trigger] rest[i].addr) by {
            assert(rest[i] == s[i]);
        }
        lemma_attempts_sum(rest, keys);
        let g = |a: Endpoint| count_where(rest, attempt_to(a));
        let ind = |a: Endpoint| if a == x.addr { 1nat } else { 0nat };
        lemma_sum_add(keys, g, ind, f);
        assert(keys.contains(s[s.len() - 1].addr));
        lemma_sum_indicator(keys, x.addr, ind);
    }
}

/// The connections in `s` add up, over endpoints without duplicates that
/// include every endpoint they target, to their number.
proof fn lemma_slots_sum<I>(s: Seq<Slot<I>>, keys: Seq<Endpoint>)
    requires
        keys.no_duplicates(),
        forall|i: int| 0 <= i < s.len() ==> keys.contains(#[trigger] s[i].addr),
    ensures
        s.len() == sum_over(keys, |a: Endpoint| count_where(s, slot_to::<I>(a))),
    decreases s.len(),
{
    let f = |a: Endpoint| count_where(s, slot_to::<I>(a));
    if s.len() == 0 {
        lemma_sum_zero(keys, f);
    } else {
        let rest = s.drop_last();
        let x = s.last();
        assert forall|i: int| 0 <= i < rest.len() implies keys.contains(#[trigger] rest[i].addr) by {
            assert(rest[i] == s[i]);
        }
        lemma_slots_sum(rest, keys);
        let g = |a: Endpoint| count_where(rest, slot_to::<I>(a));
        let ind = |a: Endpoint| if a == x.addr { 1nat } else { 0nat };
        lemma_sum_add(keys, g, ind, f);
        assert(keys.contains(s[s.len() - 1].addr));
        lemma_sum_indicator(keys, x.addr, ind);
    }
}

/// Live connections and connect attempts that count never exceed the
/// per-endpoint limit times the number of endpoints in the snapshot.
pub proof fn lemma_capacity<I>(mux: &Lazy<I>)
    requires
        mux.wf(),
    ensures
        mux.slots().len() + mux.attempts().len() <= mux.conn_limit() * mux.snapshot().len(),
{
    let keys = mux.snapshot();
    assert forall|i: int| 0 <= i < mux.attempts().len() implies keys.contains(#[trigger] mux.attempts()[i].addr) by {
        assert(mux.uses_of().contains_key(mux.attempts()[i].addr));
    }
    assert forall|i: int| 0 <= i < mux.slots().len() implies keys.contains(#[trigger] mux.slots()[i].addr) by {
        assert(mux.uses_of().contains_key(mux.slots()[i].addr));
    }
    lemma_attempts_sum(mux.attempts(), keys);
    lemma_slots_sum(mux.slots(), keys);
    let fa = |a: Endpoint| count_where(mux.attempts(), attempt_to(a));
    let fs = |a: Endpoint| count_where(mux.slots(), slot_to::<I>(a));
    let u = |a: Endpoint| mux.uses(a);
    lemma_sum_add(keys, fa, fs, u);
    assert forall|i: int| 0 <= i < keys.len() implies #[trigger] u(keys[i]) <= mux.conn_limit() as nat by {
        assert(keys.contains(keys[i]));
        assert(mux.uses_of().contains_key(keys[i]));
    }
    lemma_sum_bound(keys, u, mux.conn_limit() as nat);
}

/// For every endpoint of the snapshot, the aligner's use count is the
/// number of connect attempts and live connections that target it.
pub proof fn lemma_use_counts<I>(mux: &Lazy<I>, a: Endpoint)
    requires
        mux.wf(),
        mux.snapshot().contains(a),
    ensures
        mux.uses_of().contains_key(a),
        mux.uses_of()[a] == mux.uses(a),
        mux.uses(a) <= mux.conn_limit(),
{
}

/// With a limit of one connection per endpoint, no endpoint has more than
/// one connection or attempt.
pub proof fn lemma_single_connection<I>(mux: &Lazy<I>, a: Endpoint)
    requires
        mux.wf(),
        mux.conn_limit() == 1,
    ensures
        mux.uses(a) <= 1,
{
    if !mux.uses_of().contains_key(a) {
        assert forall|j: int| 0 <= j < mux.attempts().len() implies !(#[trigger] attempt_to(a)(mux.attempts()[j])) by {
            assert(mux.uses_of().contains_key(mux.attempts()[j].addr));
        }
        lemma_count_none(mux.attempts(), attempt_to(a));
        assert forall|j: int| 0 <= j < mux.slots().len() implies !(#[trigger] slot_to::<I>(a)(mux.slots()[j])) by {
            assert(mux.uses_of().contains_key(mux.slots()[j].addr));
        }
        lemma_count_none(mux.slots(), slot_to::<I>(a));
    }
}

/// With an empty snapshot no endpoint can be handed out, whatever the
/// blacklist holds, and no attempt or connection counts.
pub proof fn lemma_empty_snapshot<I>(mux: &Lazy<I>, penalties: Map<Endpoint, u64>)
    requires
        mux.wf(),
        mux.snapshot().len() == 0,
    ensures
        !any_eligible(mux.uses_of(), penalties, mux.conn_limit()),
        mux.attempts().len() == 0,
        mux.slots().len() == 0,
{
    assert forall|a: Endpoint| !mux.uses_of().contains_key(a) by {
        if mux.uses_of().contains_key(a) {
            assert(mux.snapshot().contains(a));
        }
    }
    if mux.attempts().len() > 0 {
        assert(mux.uses_of().contains_key(mux.attempts()[0].addr));
    }
    if mux.slots().len() > 0 {
        assert(mux.uses_of().contains_key(mux.slots()[0].addr));
    }
}

/// The ready queue after one request is handed to the connection at its
/// front, which takes it, and whose driver then puts it back at the end (as
/// `start_send` and `requeue` do when that connection accepts).
pub open spec fn serve_once(q: Seq<u64>) -> Seq<u64> {
    q.subrange(1, q.len() as int).push(q[0])
}

/// The ready queue after `n` such requests.
pub open spec fn serve_n(q: Seq<u64>, n: nat) -> Seq<u64>
    decreases n,
{
    if n == 0 {
        q
    } else {
        serve_once(serve_n(q, (n - 1) as nat))
    }
}

/// How many of `n` such requests the connection `id` receives.
pub open spec fn served(q: Seq<u64>, n: nat, id: u64) -> nat
    decreases n,
{
    if n == 0 {
        0
    } else {
        served(q, (n - 1) as nat, id) + if serve_n(q, (n - 1) as nat)[0] == id { 1nat } else { 0nat }
    }
}

proof fn lemma_serve_rotates(q: Seq<u64>, i: nat)
    requires
        q.len() > 0,
        i <= q.len(),
    ensures
        serve_n(q, i) == q.subrange(i as int, q.len() as int) + q.subrange(0, i as int),
    decreases i,
{
    if i == 0 {
        assert(q.subrange(0, q.len() as int) + q.subrange(0, 0) =~= q);
    } else {
        lemma_serve_rotates(q, (i - 1) as nat);
        let prev = q.subrange(i - 1, q.len() as int) + q.subrange(0, i - 1);
        assert(prev[0] == q[i - 1]);
        assert(serve_once(prev) =~= q.subrange(i as int, q.len() as int) + q.subrange(0, i as int));
    }
}

proof fn lemma_served_within_round(q: Seq<u64>, i: nat, j: int)
    requires
        q.len() > 0,
        q.no_duplicates(),
        i <= q.len(),
        0 <= j < q.len(),
    ensures
        served(q, i, q[j]) == if j < i { 1nat } else { 0nat },
    decreases i,
{
    if i > 0 {
        lemma_served_within_round(q, (i - 1) as nat, j);
        lemma_serve_rotates(q, (i - 1) as nat);
        let rot = q.subrange(i - 1, q.len() as int) + q.subrange(0, i - 1);
        assert(rot[0] == q[i - 1]);
        if i - 1 != j {
            assert(q[i - 1] != q[j]);
        }
    }
}

proof fn lemma_served_add(q: Seq<u64>, m: nat, n: nat, id: u64)
    ensures
        serve_n(q, m + n) == serve_n(serve_n(q, m), n),
        served(q, m + n, id) == served(q, m, id) + served(serve_n(q, m), n, id),
    decreases n,
{
    if n > 0 {
        lemma_served_add(q, m, (n - 1) as nat, id);
        assert((m + n - 1) as nat == m + (n - 1) as nat);
    }
}

/// Round-robin fairness: when every connection in the ready queue takes
/// what it is handed, `a * K + r` requests spread over the `K` connections
/// of the queue give each of them `a` or `a + 1` requests; the first `r` in
/// the queue get one more.
pub proof fn lemma_round_robin(q: Seq<u64>, a: nat, r: nat, j: int)
    requires
        q.len() > 0,
        q.no_duplicates(),
        r < q.len(),
        0 <= j < q.len(),
    ensures
        served(q, a * q.len() + r, q[j]) == a + if j < r { 1nat } else { 0nat },
    decreases a,
{
    let k = q.len();
    if a == 0 {
        assert(a * k + r == r) by (nonlinear_arith)
            requires
                a == 0,
        ;
        lemma_served_within_round(q, r, j);
    } else {
        let rest = (a - 1) as nat;
        lemma_round_robin(q, rest, r, j);
        assert(a * k + r == k + (rest * k + r)) by (nonlinear_arith)
            requires
                rest == a - 1,
        ;
        lemma_served_add(q, k, rest * k + r, q[j]);
        lemma_serve_rotates(q, k);
        assert(q.subrange(k as int, k as int) + q.subrange(0, k as int) =~= q);
        lemma_served_within_round(q, k, j);
    }
}

} // verus!
