use std::collections::HashMap;

use tk_pool::aligner::Aligner;
use tk_pool::blacklist::Blacklist;
use tk_pool::endpoint::Endpoint;

fn addr(n: u8) -> Endpoint {
    Endpoint::v4(127, 0, 0, n, 80)
}

fn only(a: Endpoint) -> Blacklist {
    let mut b = Blacklist::new();
    b.blacklist(a, u64::MAX);
    b
}

#[test]
fn normal() {
    let mut a = Aligner::new();
    a.update(vec![addr(1), addr(2), addr(3)], vec![]);
    let none = Blacklist::new();

    let mut counter = HashMap::new();
    for _ in 0..30 {
        *counter.entry(a.get(100, &none).unwrap()).or_insert(0) += 1;
    }
    assert_eq!(counter, vec![
        (addr(1), 10),
        (addr(2), 10),
        (addr(3), 10),
    ].into_iter().collect::<HashMap<_, _>>());
}

#[test]
fn blacklisting() {
    let mut a = Aligner::new();
    a.update(vec![addr(1), addr(2), addr(3)], vec![]);
    let none = Blacklist::new();

    let mut counter = HashMap::new();
    for _ in 0..6 {
        *counter.entry(a.get(100, &none).unwrap()).or_insert(0) += 1;
    }
    assert_eq!(counter, vec![
        (addr(1), 2),
        (addr(2), 2),
        (addr(3), 2),
    ].into_iter().collect::<HashMap<_, _>>());

    let blist1 = only(addr(1));
    for _ in 0..6 {
        *counter.entry(a.get(100, &blist1).unwrap()).or_insert(0) += 1;
    }
    assert_eq!(counter, vec![
        (addr(1), 2),
        (addr(2), 5),
        (addr(3), 5),
    ].into_iter().collect::<HashMap<_, _>>());

    for _ in 0..9 {
        *counter.entry(a.get(100, &none).unwrap()).or_insert(0) += 1;
    }
    assert_eq!(counter, vec![
        (addr(1), 7),
        (addr(2), 7),
        (addr(3), 7),
    ].into_iter().collect::<HashMap<_, _>>());
}

#[test]
fn update() {
    let mut a = Aligner::new();
    a.update(vec![addr(1), addr(2), addr(3)], vec![]);
    let none = Blacklist::new();

    let mut counter = HashMap::new();
    for _ in 0..6 {
        *counter.entry(a.get(100, &none).unwrap()).or_insert(0) += 1;
    }
    assert_eq!(counter, vec![
        (addr(1), 2),
        (addr(2), 2),
        (addr(3), 2),
    ].into_iter().collect::<HashMap<_, _>>());

    a.update(vec![addr(4)], vec![addr(2)]);
    for _ in 0..8 {
        *counter.entry(a.get(100, &none).unwrap()).or_insert(0) += 1;
    }
    assert_eq!(counter, vec![
        (addr(1), 4),
        (addr(2), 2),  // still here because we count attempts not conns
        (addr(3), 4),
        (addr(4), 4),
    ].into_iter().collect::<HashMap<_, _>>());
}

#[test]
fn get_respects_limit() {
    let mut a = Aligner::new();
    a.update(vec![addr(1), addr(2)], vec![]);
    let none = Blacklist::new();
    assert!(a.get(1, &none).is_some());
    assert!(a.get(1, &none).is_some());
    assert_eq!(a.get(1, &none), None);
    assert_eq!(a.count(addr(1)), Some(1));
    assert_eq!(a.count(addr(2)), Some(1));
}

#[test]
fn get_picks_minimum_count() {
    let mut a = Aligner::new();
    a.update(vec![addr(1)], vec![]);
    let none = Blacklist::new();
    assert_eq!(a.get(10, &none), Some(addr(1)));
    assert_eq!(a.get(10, &none), Some(addr(1)));
    a.update(vec![addr(2)], vec![]);
    // addr(2) starts at zero and must be picked until it catches up
    assert_eq!(a.get(10, &none), Some(addr(2)));
    assert_eq!(a.get(10, &none), Some(addr(2)));
    assert_eq!(a.count(addr(1)), Some(2));
    assert_eq!(a.count(addr(2)), Some(2));
}

#[test]
fn get_all_blacklisted() {
    let mut a = Aligner::new();
    a.update(vec![addr(1)], vec![]);
    assert_eq!(a.get(10, &only(addr(1))), None);
    assert_eq!(a.count(addr(1)), Some(0));
}

#[test]
fn ties_are_spread() {
    // with two endpoints tied, many draws from fresh aligners should pick both
    let none = Blacklist::new();
    let mut seen = HashMap::new();
    for _ in 0..200 {
        let mut a = Aligner::new();
        a.update(vec![addr(1), addr(2)], vec![]);
        *seen.entry(a.get(10, &none).unwrap()).or_insert(0) += 1;
    }
    assert_eq!(seen.len(), 2);
}

#[test]
fn put_returns_count() {
    let mut a = Aligner::new();
    a.update(vec![addr(1)], vec![]);
    let none = Blacklist::new();
    a.get(10, &none);
    a.get(10, &none);
    a.put(addr(1));
    assert_eq!(a.count(addr(1)), Some(1));
    a.put(addr(1));
    a.put(addr(1));
    assert_eq!(a.count(addr(1)), Some(0));
    a.put(addr(9));
    assert_eq!(a.count(addr(9)), None);
}

#[test]
fn update_twice_is_noop() {
    let mut a = Aligner::new();
    a.update(vec![addr(1), addr(2)], vec![]);
    let none = Blacklist::new();
    a.get(10, &none);
    a.get(10, &none);
    a.update(vec![addr(1), addr(2)], vec![]);
    assert_eq!(a.count(addr(1)), Some(1));
    assert_eq!(a.count(addr(2)), Some(1));
}
