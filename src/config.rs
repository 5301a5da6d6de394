use vstd::prelude::*;

use crate::error_log::WarnLogger;
use crate::metrics::{Collect, Noop};
use crate::uniform::LazyUniform;

verus! {

/// The error of the multiplexer's sink: the pool has stopped accepting
/// requests for good.
#[derive(Clone, Copy, Debug, PartialEq, Eq, Structural)]
pub struct Done;

/// A constructor for the metrics collector of a pool.
pub trait NewMetrics {
    type Collect: Collect;

    fn construct(self) -> Self::Collect;
}

/// A configuration that holds the connector only.
#[derive(Debug)]
pub struct PartialConfig<C> {
    pub connector: C,
}

/// A complete configuration, whose defaults may still be overridden.
pub struct PoolConfig<C, A, X, Q, E, M> {
    pub connector: C,
    pub address: A,
    pub mux: X,
    pub queue: Q,
    pub errors: E,
    pub metrics: M,
}

/// The constructor of the default multiplexer.
#[derive(Debug, Clone, Copy)]
pub struct DefaultMux;

/// The constructor of the default intake queue (of 100 requests).
#[derive(Debug, Clone, Copy)]
pub struct DefaultQueue;

/// The constructor of an intake queue of the given size.
#[derive(Debug, Clone, Copy, PartialEq, Eq, Structural)]
pub struct Queue(pub usize);

/// The constructor of the default (no-op) metrics collector.
#[derive(Debug, Clone, Copy)]
pub struct NoopMetrics;

/// The size of the default intake queue.
pub const DEFAULT_QUEUE_SIZE: usize = 100;

/// The default reconnect timeout, in milliseconds.
pub const DEFAULT_RECONNECT_MS: u64 = 100;

impl NewMetrics for NoopMetrics {
    type Collect = Noop;

    fn construct(self) -> Noop {
        Noop
    }
}

impl DefaultQueue {
    /// The queue this default stands for.
    pub fn queue(&self) -> (r: Queue)
        ensures
            r.0 == DEFAULT_QUEUE_SIZE,
    {
        Queue(DEFAULT_QUEUE_SIZE)
    }
}

impl Queue {
    /// The capacity of the channel behind the queue: the forwarding task
    /// buffers one request itself, so the channel holds one fewer (and none
    /// for a queue of size zero, where only the slot of a connection
    /// buffers a request).
    pub fn channel_capacity(&self) -> (r: usize)
        ensures
            r == (if self.0 == 0 { 0 } else { self.0 - 1 }),
    {
        self.0.saturating_sub(1)
    }
}

/// Start configuring a pool with the connector that opens connections.
pub fn pool_for<C>(connector: C) -> (r: PartialConfig<C>)
    ensures
        r.connector == connector,
{
    PartialConfig { connector }
}

impl<C> PartialConfig<C> {
    /// Complete the configuration with the address stream; everything else
    /// takes its default.
    pub fn connect_to<A>(self, address_stream: A) -> (r: PoolConfig<C, A, DefaultMux, DefaultQueue, WarnLogger, NoopMetrics>)
        ensures
            r.connector == self.connector,
            r.address == address_stream,
    {
        PoolConfig {
            address: address_stream,
            connector: self.connector,
            mux: DefaultMux,
            errors: WarnLogger,
            queue: DefaultQueue,
            metrics: NoopMetrics,
        }
    }
}

impl<C, A, X, Q, E, M> PoolConfig<C, A, X, Q, E, M> {
    /// Use a uniform multiplexer that opens up to `num` connections per
    /// endpoint, lazily (only when requests wait), with the default
    /// reconnect timeout.
    pub fn lazy_uniform_connections(self, num: u32) -> (r: PoolConfig<C, A, LazyUniform, Q, E, M>)
        ensures
            r.mux.conn_limit == num,
            r.mux.reconnect_timeout_ms == DEFAULT_RECONNECT_MS,
            r.mux.lazy,
            r.connector == self.connector,
            r.address == self.address,
            r.queue == self.queue,
            r.errors == self.errors,
            r.metrics == self.metrics,
    {
        PoolConfig {
            mux: LazyUniform { conn_limit: num, reconnect_timeout_ms: DEFAULT_RECONNECT_MS, lazy: true },
            address: self.address,
            connector: self.connector,
            errors: self.errors,
            queue: self.queue,
            metrics: self.metrics,
        }
    }

    /// Use a uniform multiplexer that opens up to `num` connections per
    /// endpoint as soon as the endpoints are known, with the default
    /// reconnect timeout.
    pub fn eager_uniform_connections(self, num: u32) -> (r: PoolConfig<C, A, LazyUniform, Q, E, M>)
        ensures
            r.mux.conn_limit == num,
            r.mux.reconnect_timeout_ms == DEFAULT_RECONNECT_MS,
            !r.mux.lazy,
            r.connector == self.connector,
            r.address == self.address,
            r.queue == self.queue,
            r.errors == self.errors,
            r.metrics == self.metrics,
    {
        PoolConfig {
            mux: LazyUniform { conn_limit: num, reconnect_timeout_ms: DEFAULT_RECONNECT_MS, lazy: false },
            address: self.address,
            connector: self.connector,
            errors: self.errors,
            queue: self.queue,
            metrics: self.metrics,
        }
    }

    /// Use an intake queue of `num` requests, used while no connection can
    /// take a request.
    pub fn with_queue_size(self, num: usize) -> (r: PoolConfig<C, A, X, Queue, E, M>)
        ensures
            r.queue == Queue(num),
            r.connector == self.connector,
            r.address == self.address,
            r.mux == self.mux,
            r.errors == self.errors,
            r.metrics == self.metrics,
    {
        PoolConfig {
            queue: Queue(num),
            address: self.address,
            connector: self.connector,
            mux: self.mux,
            errors: self.errors,
            metrics: self.metrics,
        }
    }

    /// Override the metrics collector.
    pub fn metrics<NM: NewMetrics>(self, metrics: NM) -> (r: PoolConfig<C, A, X, Q, E, NM>)
        ensures
            r.metrics == metrics,
            r.connector == self.connector,
            r.address == self.address,
            r.mux == self.mux,
            r.queue == self.queue,
            r.errors == self.errors,
    {
        PoolConfig {
            queue: self.queue,
            address: self.address,
            connector: self.connector,
            mux: self.mux,
            errors: self.errors,
            metrics,
        }
    }

    /// Override the error log.
    pub fn errors<NE>(self, errors: NE) -> (r: PoolConfig<C, A, X, Q, NE, M>)
        ensures
            r.errors == errors,
            r.connector == self.connector,
            r.address == self.address,
            r.mux == self.mux,
            r.queue == self.queue,
            r.metrics == self.metrics,
    {
        PoolConfig {
            queue: self.queue,
            address: self.address,
            connector: self.connector,
            mux: self.mux,
            errors,
            metrics: self.metrics,
        }
    }
}

} // verus!
