use tk_pool::config::Done;
use tk_pool::endpoint::Endpoint;
use tk_pool::uniform::{Action, Lazy, LazyUniform, SendStep};

fn ep(n: u8) -> Endpoint {
    Endpoint::v4(192, 168, 0, n, 80)
}

fn mux(limit: u32) -> Lazy<u32> {
    LazyUniform { conn_limit: limit, reconnect_timeout_ms: 100, lazy: true }.construct()
}

/// Run the first activation of a new connection's driver: nothing to send,
/// so it flushes and joins the ready queue.
fn first_poll(m: &mut Lazy<u32>, id: u64) {
    assert!(matches!(m.take(id), Action::Poll));
    m.requeue(id);
}

/// Offer `item`; every connect succeeds at once, and the connection's
/// driver sends what it is handed without joining the ready queue again
/// until `wake_all`. Returns whether the item was delivered.
fn offer(m: &mut Lazy<u32>, item: u32, connects: &mut Vec<Endpoint>, sink: &mut Vec<(u64, u32)>) -> bool {
    let mut item = item;
    loop {
        match m.start_send(item, 0) {
            SendStep::Deposited(id) => {
                match m.take(id) {
                    Action::StartSend(x) => sink.push((id, x)),
                    _ => panic!("driver found nothing to send"),
                }
                assert_eq!(m.request_back(id), None);
                return true;
            }
            SendStep::Connect(id, addr, x) => {
                connects.push(addr);
                assert!(m.connected(id, 0));
                first_poll(m, id);
                item = x;
            }
            SendStep::Wait(_) => return false,
            SendStep::Done(_) => panic!("pool closed"),
        }
    }
}

fn wake_all(m: &mut Lazy<u32>, ids: &[u64]) {
    for &id in ids {
        if let Action::Poll = m.take(id) {
            m.requeue(id);
        }
    }
}

#[test]
fn single_endpoint_three_requests() {
    let mut m = mux(1);
    assert_eq!(m.update_addresses(&vec![ep(1)]), Vec::<u64>::new());
    let mut connects = Vec::new();
    let mut sink = Vec::new();
    for item in 1..=3u32 {
        assert!(offer(&mut m, item, &mut connects, &mut sink));
        let ids: Vec<u64> = sink.iter().map(|x| x.0).collect();
        wake_all(&mut m, &ids);
    }
    assert_eq!(connects, vec![ep(1)]);
    let id = sink[0].0;
    assert_eq!(sink, vec![(id, 1), (id, 2), (id, 3)]);
    // intake closed: the pool closes the connection, then reports done
    assert!(!m.close());
    assert!(matches!(m.take(id), Action::Close));
    assert!(m.sink_closed(id));
    assert_eq!(m.poll_complete(), Err(Done));
    assert!(matches!(m.start_send(4, 0), SendStep::Done(4)));
}

#[test]
fn two_endpoints_round_robin() {
    let mut m = mux(2);
    m.update_addresses(&vec![ep(1), ep(2)]);
    let mut connects = Vec::new();
    let mut sink = Vec::new();
    let mut ids: Vec<u64> = Vec::new();
    for item in 0..10u32 {
        loop {
            if offer(&mut m, item, &mut connects, &mut sink) {
                break;
            }
            wake_all(&mut m, &ids);
        }
        for &(id, _) in &sink {
            if !ids.contains(&id) {
                ids.push(id);
            }
        }
    }
    assert_eq!(connects.len(), 4);
    assert_eq!(connects.iter().filter(|a| **a == ep(1)).count(), 2);
    assert_eq!(connects.iter().filter(|a| **a == ep(2)).count(), 2);
    assert_eq!(ids.len(), 4);
    for id in &ids {
        let n = sink.iter().filter(|x| x.0 == *id).count();
        assert!(n == 2 || n == 3, "slot got {} items", n);
    }
    assert_eq!(m.penalty(ep(1)), None);
    assert_eq!(m.penalty(ep(2)), None);
    assert_eq!(m.use_count(ep(1)), Some(2));
    assert_eq!(m.use_count(ep(2)), Some(2));
    assert_eq!(m.live(), 4);
}

#[test]
fn flaky_endpoint() {
    let mut m = mux(2);
    m.update_addresses(&vec![ep(1), ep(2)]);
    let mut errors = Vec::new();
    let mut live = Vec::new();
    let mut now = 0u64;
    // offer requests until two connections to the good endpoint exist
    let mut item = 0u32;
    while live.len() < 2 {
        match m.start_send(item, now) {
            SendStep::Connect(id, addr, x) => {
                item = x;
                if addr == ep(1) {
                    assert_eq!(m.connect_failed(id, now), Some(ep(1)));
                    errors.push(now);
                    let until = m.penalty(ep(1)).unwrap();
                    assert!(until >= now + 50 && until <= now + 150);
                } else {
                    assert!(m.connected(id, now));
                    live.push(id);
                }
            }
            SendStep::Deposited(_) => panic!("no connection was ready"),
            SendStep::Wait(x) => {
                item = x;
                now += 1;
            }
            SendStep::Done(_) => panic!("pool closed"),
        }
    }
    assert_eq!(errors.len(), 1);
    assert_eq!(m.use_count(ep(2)), Some(2));
    assert_eq!(m.use_count(ep(1)), Some(0));
    // within the backoff the failing endpoint is not retried
    assert!(matches!(m.start_send(item, now), SendStep::Wait(_)));
    // after the backoff one retry goes to it, and fails again
    let later = m.penalty(ep(1)).unwrap();
    match m.start_send(item, later) {
        SendStep::Connect(id, addr, _) => {
            assert_eq!(addr, ep(1));
            assert_eq!(m.connect_failed(id, later), Some(ep(1)));
        }
        _ => panic!("expected a retry"),
    }
    assert!(m.is_failing(ep(1)));
    // the request is not lost: it is handed back and served by a good connection
    for &id in &live {
        first_poll(&mut m, id);
    }
    match m.start_send(item, later) {
        SendStep::Deposited(id) => assert!(live.contains(&id)),
        _ => panic!("expected a deposit"),
    }
}

#[test]
fn address_churn() {
    let mut m = mux(3);
    m.update_addresses(&vec![ep(1)]);
    let mut connects = Vec::new();
    let mut sink = Vec::new();
    for item in 0..3u32 {
        assert!(offer(&mut m, item, &mut connects, &mut sink));
    }
    assert_eq!(m.live(), 3);
    let ids: Vec<u64> = sink.iter().map(|x| x.0).collect();
    // one more item is deposited but not yet taken when the snapshot changes
    wake_all(&mut m, &ids[..1]);
    let held = match m.start_send(7, 0) {
        SendStep::Deposited(id) => id,
        _ => panic!("expected a deposit"),
    };
    let mut retired = m.update_addresses(&vec![ep(2)]);
    retired.sort();
    let mut expected = ids.clone();
    expected.sort();
    assert_eq!(retired, expected);
    assert_eq!(m.live(), 0);
    assert_eq!(m.retiring_count(), 3);
    assert_eq!(m.use_count(ep(1)), None);
    assert_eq!(m.use_count(ep(2)), Some(0));
    // the deposited item is sent before the connection is closed
    assert!(matches!(m.take(held), Action::StartSend(7)));
    for &id in &ids {
        assert!(matches!(m.take(id), Action::Close));
        assert!(m.sink_closed(id));
    }
    assert_eq!(m.retiring_count(), 0);
    // new requests connect to the new endpoint
    match m.start_send(8, 0) {
        SendStep::Connect(_, addr, 8) => assert_eq!(addr, ep(2)),
        _ => panic!("expected a connect"),
    }
}

#[test]
fn backpressure_in_order() {
    let mut m = mux(1);
    m.update_addresses(&vec![ep(1)]);
    let id = match m.start_send(0, 0) {
        SendStep::Connect(id, _, _) => id,
        _ => panic!("expected a connect"),
    };
    assert!(m.connected(id, 0));
    first_poll(&mut m, id);
    let mut delivered = Vec::new();
    let mut accept = false;
    for item in 0..8u32 {
        loop {
            match m.start_send(item, 0) {
                SendStep::Deposited(d) => {
                    assert_eq!(d, id);
                    let x = match m.take(id) {
                        Action::StartSend(x) => x,
                        _ => panic!("nothing to send"),
                    };
                    accept = !accept;
                    if accept {
                        delivered.push(x);
                        m.requeue(id);
                        break;
                    }
                    // the connection pushed back: the item goes back to the caller
                    assert!(m.backpressure(id, x).is_none());
                    assert_eq!(m.request_back(id), Some(x));
                    match m.start_send(x, 0) {
                        SendStep::Wait(y) => assert_eq!(y, x),
                        _ => panic!("expected to wait"),
                    }
                    first_poll(&mut m, id);
                }
                _ => panic!("expected a deposit"),
            }
        }
    }
    assert_eq!(delivered, (0..8).collect::<Vec<u32>>());
}

#[test]
fn close_with_in_flight_items() {
    let mut m = mux(1);
    m.update_addresses(&vec![ep(1)]);
    let mut connects = Vec::new();
    let mut sink = Vec::new();
    assert!(offer(&mut m, 0, &mut connects, &mut sink));
    let id = sink[0].0;
    for item in 1..5u32 {
        first_poll(&mut m, id);
        assert!(offer(&mut m, item, &mut connects, &mut sink));
    }
    // one more is waiting in the slot when the pool starts closing
    first_poll(&mut m, id);
    assert!(matches!(m.start_send(5, 0), SendStep::Deposited(_)));
    assert!(!m.close());
    assert!(m.closing());
    assert_eq!(m.poll_complete(), Ok(()));
    assert!(matches!(m.start_send(6, 0), SendStep::Wait(6)));
    assert!(matches!(m.take(id), Action::StartSend(5)));
    assert!(matches!(m.take(id), Action::Close));
    assert!(m.sink_closed(id));
    assert_eq!(m.poll_complete(), Err(Done));
    assert_eq!(sink.len(), 5);
}

#[test]
fn single_connection_falls_through() {
    let mut m = mux(1);
    m.update_addresses(&vec![ep(1), ep(2)]);
    let mut connects = Vec::new();
    let mut sink = Vec::new();
    assert!(offer(&mut m, 0, &mut connects, &mut sink));
    // the first connection is busy: the next request goes to the other endpoint
    assert!(offer(&mut m, 1, &mut connects, &mut sink));
    assert_eq!(connects.len(), 2);
    assert_ne!(connects[0], connects[1]);
    // both endpoints are at their limit now
    assert!(matches!(m.start_send(2, 0), SendStep::Wait(2)));
    assert_eq!(m.use_count(ep(1)), Some(1));
    assert_eq!(m.use_count(ep(2)), Some(1));
}

#[test]
fn empty_snapshot() {
    let mut m = mux(2);
    assert!(matches!(m.start_send(1, 0), SendStep::Wait(1)));
    m.update_addresses(&vec![]);
    assert!(matches!(m.start_send(1, 0), SendStep::Wait(1)));
    assert_eq!(m.connecting(), 0);
    assert!(m.close());
    assert_eq!(m.poll_complete(), Err(Done));
}

#[test]
fn same_snapshot_twice() {
    let mut m = mux(2);
    m.update_addresses(&vec![ep(1), ep(2)]);
    let mut connects = Vec::new();
    let mut sink = Vec::new();
    assert!(offer(&mut m, 0, &mut connects, &mut sink));
    let before = (m.use_count(ep(1)), m.use_count(ep(2)));
    assert_eq!(m.update_addresses(&vec![ep(2), ep(1), ep(2)]), Vec::<u64>::new());
    assert_eq!((m.use_count(ep(1)), m.use_count(ep(2))), before);
    assert_eq!(m.live(), 1);
}

#[test]
fn use_counts_match_connections() {
    let mut m = mux(3);
    m.update_addresses(&vec![ep(1)]);
    let a = match m.start_send(0, 0) {
        SendStep::Connect(id, _, _) => id,
        _ => panic!("expected a connect"),
    };
    let b = match m.start_send(0, 0) {
        SendStep::Connect(id, _, _) => id,
        _ => panic!("expected a connect"),
    };
    assert_eq!(m.connecting(), 2);
    assert_eq!(m.use_count(ep(1)), Some(2));
    assert!(m.connected(a, 0));
    assert_eq!(m.live(), 1);
    assert_eq!(m.use_count(ep(1)), Some(2));
    assert_eq!(m.disconnected(a, 1000), Some(ep(1)));
    assert_eq!(m.use_count(ep(1)), Some(1));
    // a long-lived connection that fails is not blacklisted
    assert!(!m.is_failing(ep(1)));
    assert!(m.connected(b, 0));
    // a short-lived one is
    assert_eq!(m.disconnected(b, 10), Some(ep(1)));
    let until = m.penalty(ep(1)).unwrap();
    assert!(until >= 60 && until <= 160);
    assert_eq!(m.use_count(ep(1)), Some(0));
}

#[test]
fn retired_attempt_is_aborted() {
    let mut m = mux(1);
    m.update_addresses(&vec![ep(1)]);
    let id = match m.start_send(0, 0) {
        SendStep::Connect(id, _, _) => id,
        _ => panic!("expected a connect"),
    };
    assert_eq!(m.update_addresses(&vec![ep(2)]), vec![id]);
    assert_eq!(m.connecting(), 0);
    assert!(!m.connected(id, 0));
    assert!(m.close());
}

#[test]
fn unknown_ids_are_ignored() {
    let mut m = mux(1);
    assert!(matches!(m.take(42), Action::Close));
    assert_eq!(m.backpressure(42, 5), Some(5));
    assert_eq!(m.request_back(42), None);
    assert!(!m.sink_closed(42));
    assert_eq!(m.disconnected(42, 0), None);
    assert_eq!(m.connect_failed(42, 0), None);
    assert!(!m.connected(42, 0));
}

#[test]
fn reconnect_window() {
    let m: Lazy<u32> = LazyUniform { conn_limit: 1, reconnect_timeout_ms: 101, lazy: true }.construct();
    let mut m = m;
    m.update_addresses(&vec![ep(1)]);
    let id = match m.start_send(0, 1000) {
        SendStep::Connect(id, _, _) => id,
        _ => panic!("expected a connect"),
    };
    m.connect_failed(id, 1000);
    let until = m.penalty(ep(1)).unwrap();
    // the window is [50, 151] for a timeout of 101 ms
    assert!(until >= 1050 && until <= 1151);
}

#[test]
fn eager_connections() {
    let mut m: Lazy<u32> = LazyUniform { conn_limit: 2, reconnect_timeout_ms: 100, lazy: false }.construct();
    m.update_addresses(&vec![ep(1), ep(2)]);
    let mut opened = Vec::new();
    while let Some((_, addr)) = m.connect_eagerly(0) {
        opened.push(addr);
    }
    assert_eq!(opened.len(), 4);
    assert_eq!(opened.iter().filter(|a| **a == ep(1)).count(), 2);
    assert_eq!(m.connecting(), 4);
    assert!(!m.close());
    assert_eq!(m.connect_eagerly(0), None);
}

#[test]
fn lifted_penalties_are_reported() {
    let mut m = mux(1);
    m.update_addresses(&vec![ep(1)]);
    let id = match m.start_send(0, 0) {
        SendStep::Connect(id, _, _) => id,
        _ => panic!("expected a connect"),
    };
    assert_eq!(m.connect_failed(id, 0), Some(ep(1)));
    assert_eq!(m.take_lifted(), Vec::<Endpoint>::new());
    let until = m.penalty(ep(1)).unwrap();
    assert!(matches!(m.start_send(0, until), SendStep::Connect(_, _, 0)));
    assert_eq!(m.take_lifted(), vec![ep(1)]);
    assert_eq!(m.take_lifted(), Vec::<Endpoint>::new());
}

#[test]
fn retiring_connection_failure() {
    let mut m = mux(2);
    m.update_addresses(&vec![ep(1)]);
    let a = match m.start_send(0, 0) {
        SendStep::Connect(id, _, _) => id,
        _ => panic!("expected a connect"),
    };
    let b = match m.start_send(0, 0) {
        SendStep::Connect(id, _, _) => id,
        _ => panic!("expected a connect"),
    };
    assert!(m.connected(a, 0));
    assert!(m.connected(b, 0));
    m.update_addresses(&vec![ep(2)]);
    assert_eq!(m.retiring_count(), 2);
    // a long-lived retiring connection that fails leaves no penalty
    assert_eq!(m.disconnected(a, 1000), Some(ep(1)));
    assert!(!m.is_failing(ep(1)));
    // a short-lived one is blacklisted
    assert_eq!(m.disconnected(b, 10), Some(ep(1)));
    assert!(m.is_failing(ep(1)));
    assert_eq!(m.retiring_count(), 0);
}

#[test]
fn pushback_keeps_slot_out_of_ready() {
    let mut m = mux(1);
    m.update_addresses(&vec![ep(1)]);
    let id = match m.start_send(0, 0) {
        SendStep::Connect(id, _, _) => id,
        _ => panic!("expected a connect"),
    };
    assert!(m.connected(id, 0));
    first_poll(&mut m, id);
    assert_eq!(m.ready_len(), 1);
    assert!(matches!(m.start_send(1, 0), SendStep::Deposited(_)));
    assert_eq!(m.ready_len(), 0);
    assert!(matches!(m.take(id), Action::StartSend(1)));
    assert_eq!(m.backpressure(id, 1), None);
    assert_eq!(m.ready_len(), 0);
    // the slot is taken: a second push-back hands the item back
    assert_eq!(m.backpressure(id, 2), Some(2));
    assert_eq!(m.request_back(id), Some(1));
    assert_eq!(m.request_back(id), None);
}
