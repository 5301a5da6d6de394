use vstd::prelude::*;

verus! {

/// Hooks through which a metrics collector observes the pool. Every hook
/// does nothing unless overridden.
pub trait Collect: Clone {
    /// A connect attempt started.
    fn connection_attempt(&self) {
    }

    /// A connect attempt failed.
    fn connection_error(&self) {
    }

    /// A connect attempt was aborted because its endpoint was retired.
    fn connection_abort(&self) {
    }

    /// A connection was established.
    fn connection(&self) {
    }

    /// A connection was closed.
    fn disconnect(&self) {
    }

    /// An endpoint was put on the blacklist.
    fn blacklist_add(&self) {
    }

    /// An endpoint left the blacklist.
    fn blacklist_remove(&self) {
    }

    /// A request entered the intake queue.
    fn request_queued(&self) {
    }

    /// A request left the intake queue for the multiplexer.
    fn request_forwarded(&self) {
    }

    /// The pool has shut down.
    fn pool_closed(&self) {
    }
}

/// A collector that ignores every event.
#[derive(Debug, Clone, Copy)]
pub struct Noop;

impl Collect for Noop {
}

} // verus!
