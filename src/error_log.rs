use vstd::prelude::*;

use std::marker::PhantomData;

verus! {

/// Why the pool shuts down.
#[derive(Debug, Clone, Copy, PartialEq, Eq, Structural)]
pub enum ShutdownReason {
    /// Every handle of the intake queue was dropped.
    RequestStreamClosed,
    /// The address stream ended: the pool is forced to shut down.
    AddressStreamClosed,
}

impl ShutdownReason {
    /// A human-readable description.
    pub fn as_str(&self) -> (r: &'static str)
        ensures
            *self == ShutdownReason::RequestStreamClosed ==> r@ == "request stream closed"@,
            *self == ShutdownReason::AddressStreamClosed ==> r@ == "address stream closed"@,
    {
        match self {
            ShutdownReason::RequestStreamClosed => "request stream closed",
            ShutdownReason::AddressStreamClosed => "address stream closed",
        }
    }
}

/// The constructor of the default error log, which logs warnings.
#[derive(Debug, Clone, Copy)]
pub struct WarnLogger;

/// The default error log, for connection errors of type `C` and sink
/// errors of type `S`.
pub struct WarnLoggerInstance<C, S> {
    marker: PhantomData<(C, S)>,
}

impl<C, S> WarnLoggerInstance<C, S> {
    pub fn new() -> (r: WarnLoggerInstance<C, S>) {
        WarnLoggerInstance { marker: PhantomData }
    }
}

impl<C, S> Clone for WarnLoggerInstance<C, S> {
    fn clone(&self) -> (r: WarnLoggerInstance<C, S>) {
        WarnLoggerInstance { marker: PhantomData }
    }
}

impl WarnLogger {
    /// The error log this constructor makes.
    pub fn construct<C, S>(self) -> (r: WarnLoggerInstance<C, S>) {
        WarnLoggerInstance::new()
    }
}

} // verus!
