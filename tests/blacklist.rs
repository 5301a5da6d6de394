use tk_pool::blacklist::Blacklist;
use tk_pool::endpoint::Endpoint;

fn addr(n: u8) -> Endpoint {
    Endpoint::v4(10, 0, 0, n, 443)
}

#[test]
fn blacklist_and_expire() {
    let mut b = Blacklist::new();
    assert!(b.is_empty());
    b.blacklist(addr(1), 100);
    b.blacklist(addr(2), 200);
    assert!(b.is_failing(addr(1)));
    assert!(!b.is_failing(addr(3)));
    assert_eq!(b.next_expiry(), Some(100));
    assert_eq!(b.poll(99), Vec::<Endpoint>::new());
    assert_eq!(b.poll(100), vec![addr(1)]);
    assert!(!b.is_failing(addr(1)));
    assert!(b.is_failing(addr(2)));
    assert_eq!(b.next_expiry(), Some(200));
    assert_eq!(b.poll(1000), vec![addr(2)]);
    assert!(b.is_empty());
    assert_eq!(b.next_expiry(), None);
}

#[test]
fn blacklist_replaces_expiry() {
    let mut b = Blacklist::new();
    b.blacklist(addr(1), 500);
    b.blacklist(addr(1), 50);
    assert_eq!(b.expiry(addr(1)), Some(50));
    assert_eq!(b.poll(60), vec![addr(1)]);
    assert!(!b.is_failing(addr(1)));
}

#[test]
fn endpoint_constructors() {
    let a = Endpoint::v4(127, 0, 0, 1, 80);
    assert_eq!(a.ip, 0x7f00_0001);
    assert_eq!(a.port, 80);
    assert!(!a.is_v6);
    let b = Endpoint::v6(1, 8080, 0, 0);
    assert!(b.is_v6);
    assert_ne!(Endpoint::v4(0, 0, 0, 1, 8080), b);
    // addresses that differ only in their scope are different endpoints
    let c = Endpoint::v6(0xfe80 << 112, 8080, 0, 2);
    assert_eq!(c.scope_id, 2);
    assert_ne!(c, Endpoint::v6(0xfe80 << 112, 8080, 0, 3));
}
