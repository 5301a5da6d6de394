use tk_pool::config::{DefaultQueue, NewMetrics, NoopMetrics, Queue, DEFAULT_QUEUE_SIZE};
use tk_pool::error_log::{ShutdownReason, WarnLogger, WarnLoggerInstance};
use tk_pool::metrics::{Collect, Noop};
use tk_pool::pool_for;
use tk_pool::queue::QueueError;

#[test]
fn builder_defaults_and_overrides() {
    let cfg = pool_for(7u8).connect_to("addresses");
    assert_eq!(cfg.connector, 7);
    assert_eq!(cfg.address, "addresses");
    let cfg = cfg.lazy_uniform_connections(2).with_queue_size(10);
    assert_eq!(cfg.mux.conn_limit, 2);
    assert_eq!(cfg.mux.reconnect_timeout_ms, 100);
    assert_eq!(cfg.queue, Queue(10));
    assert!(cfg.mux.lazy);
    let cfg = cfg.metrics(NoopMetrics).errors(WarnLogger);
    assert_eq!(cfg.connector, 7);
    let eager = cfg.eager_uniform_connections(3);
    assert_eq!(eager.mux.conn_limit, 3);
    assert!(!eager.mux.lazy);
}

#[test]
fn queue_capacity() {
    assert_eq!(Queue(10).channel_capacity(), 9);
    assert_eq!(Queue(1).channel_capacity(), 0);
    assert_eq!(Queue(0).channel_capacity(), 0);
    assert_eq!(DefaultQueue.queue(), Queue(DEFAULT_QUEUE_SIZE));
    assert_eq!(DEFAULT_QUEUE_SIZE, 100);
}

#[test]
fn queue_error_returns_item() {
    let e = QueueError(String::from("request"));
    assert_eq!(e.as_str(), "connection pool is closed");
    assert_eq!(e.into_inner(), "request");
}

#[test]
fn shutdown_reason_text() {
    assert_eq!(ShutdownReason::RequestStreamClosed.as_str(), "request stream closed");
    assert_eq!(ShutdownReason::AddressStreamClosed.as_str(), "address stream closed");
}

#[test]
fn noop_metrics() {
    let m: Noop = NoopMetrics.construct();
    m.connection_attempt();
    m.pool_closed();
    let _log: WarnLoggerInstance<String, String> = WarnLogger.construct();
}
