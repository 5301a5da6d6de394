use tk_pool::queue::{Forward, Forwarder, Offered, Received};

#[test]
fn forwarder_sends_and_receives() {
    let mut f: Forwarder<u32> = Forwarder::new();
    assert!(matches!(f.start(), Forward::Receive));
    assert!(matches!(f.received(Received::Item(5)), Forward::Send(5)));
    assert!(matches!(f.offered(Offered::Accepted), Forward::Receive));
    assert!(matches!(f.received(Received::Empty), Forward::Flush));
    assert!(matches!(f.settled(false), Forward::Wait));
}

#[test]
fn forwarder_keeps_pushed_back_request() {
    let mut f: Forwarder<u32> = Forwarder::new();
    assert!(matches!(f.offered(Offered::Full(9)), Forward::Wait));
    // the next activation offers it first
    assert!(matches!(f.start(), Forward::Send(9)));
    assert!(matches!(f.start(), Forward::Receive));
}

#[test]
fn forwarder_reports_shutdown_once() {
    let mut f: Forwarder<u32> = Forwarder::new();
    assert!(matches!(f.received(Received::Closed), Forward::Close(true)));
    assert!(matches!(f.settled(false), Forward::Wait));
    assert!(matches!(f.received(Received::Closed), Forward::Close(false)));
    assert!(matches!(f.settled(true), Forward::Finish));
}

#[test]
fn forwarder_finishes_when_pool_done() {
    let mut f: Forwarder<u32> = Forwarder::new();
    assert!(matches!(f.received(Received::Item(1)), Forward::Send(1)));
    assert!(matches!(f.offered(Offered::Done), Forward::Finish));
}
