use vstd::prelude::*;

verus! {

/// The error of the intake queue once the pool is closed: it hands the
/// request back.
pub struct QueueError<V>(pub V);

impl<V> QueueError<V> {
    /// Take back the request that could not be queued.
    pub fn into_inner(self) -> (r: V)
        ensures
            r == self.0,
    {
        self.0
    }

    /// A human-readable description.
    pub fn as_str(&self) -> (r: &'static str)
        ensures
            r@ == "connection pool is closed"@,
    {
        "connection pool is closed"
    }
}

/// What the task that forwards queued requests to the multiplexer is to do
/// next.
pub enum Forward<V> {
    /// Offer this request to the multiplexer.
    Send(V),
    /// Take the next request from the queue.
    Receive,
    /// The queue is empty for now: let the multiplexer make progress.
    Flush,
    /// The queue is closed: close the multiplexer, first reporting that the
    /// pool shuts down when the flag is set.
    Close(bool),
    /// Nothing to do until the task is woken.
    Wait,
    /// The multiplexer is done: report the pool closed and stop.
    Finish,
}

/// How the multiplexer took a request.
pub enum Offered<V> {
    /// It took the request.
    Accepted,
    /// It cannot take a request now: here it is back.
    Full(V),
    /// It has stopped for good.
    Done,
}

/// What the queue yielded.
pub enum Received<V> {
    /// A request.
    Item(V),
    /// Nothing for now.
    Empty,
    /// Nothing, ever again: every handle of the queue is gone.
    Closed,
}

/// The decisions of the forwarding task: it holds at most one request that
/// the multiplexer pushed back, and remembers whether the shutdown of the
/// queue was reported.
pub struct Forwarder<V> {
    buffer: Option<V>,
    announced: bool,
}

impl<V> Forwarder<V> {
    pub closed spec fn buffered(&self) -> Option<V> {
        self.buffer
    }

    pub closed spec fn announced(&self) -> bool {
        self.announced
    }

    pub fn new() -> (r: Forwarder<V>)
        ensures
            r.buffered().is_none(),
            !r.announced(),
    {
        Forwarder { buffer: None, announced: false }
    }

    /// The first step of an activation: offer the request pushed back last
    /// time, if any, else take one from the queue.
    pub fn start(&mut self) -> (r: Forward<V>)
        ensures
            final(self).buffered().is_none(),
            final(self).announced() == old(self).announced(),
            old(self).buffered() matches Some(x) ==> r == Forward::Send(x),
            old(self).buffered().is_none() ==> r == Forward::<V>::Receive,
    {
        match self.buffer.take() {
            Some(x) => Forward::Send(x),
            None => Forward::Receive,
        }
    }

    /// The multiplexer answered an offer: go on receiving, keep the request
    /// for the next activation, or finish.
    pub fn offered(&mut self, outcome: Offered<V>) -> (r: Forward<V>)
        requires
            old(self).buffered().is_none(),
        ensures
            final(self).announced() == old(self).announced(),
            outcome matches Offered::Full(x) ==> final(self).buffered() == Some(x) && r == Forward::<V>::Wait,
            outcome is Accepted ==> final(self).buffered().is_none() && r == Forward::<V>::Receive,
            outcome is Done ==> final(self).buffered().is_none() && r == Forward::<V>::Finish,
    {
        match outcome {
            Offered::Accepted => Forward::Receive,
            Offered::Full(x) => {
                self.buffer = Some(x);
                Forward::Wait
            },
            Offered::Done => Forward::Finish,
        }
    }

    /// The queue answered: offer the request, flush, or close (reporting the
    /// shutdown the first time only).
    pub fn received(&mut self, got: Received<V>) -> (r: Forward<V>)
        ensures
            final(self).buffered() == old(self).buffered(),
            got matches Received::Item(x) ==> r == Forward::Send(x) && final(self).announced() == old(self).announced(),
            got is Empty ==> r == Forward::<V>::Flush && final(self).announced() == old(self).announced(),
            got is Closed ==> r == Forward::<V>::Close(!old(self).announced()) && final(self).announced(),
    {
        match got {
            Received::Item(x) => Forward::Send(x),
            Received::Empty => Forward::Flush,
            Received::Closed => {
                let first = !self.announced;
                self.announced = true;
                Forward::Close(first)
            },
        }
    }

    /// The multiplexer was flushed or closed: finish once it reports that
    /// it is done, else wait.
    pub fn settled(&self, done: bool) -> (r: Forward<V>)
        ensures
            done ==> r == Forward::<V>::Finish,
            !done ==> r == Forward::<V>::Wait,
    {
        if done {
            Forward::Finish
        } else {
            Forward::Wait
        }
    }
}

} // verus!
