use sockmap::addr::{AddrVec, ConnAddr, ConnIpAddr, ListenerAddr, ListenerIpAddr};
use sockmap::bound::{BoundSocketMap, ExistsError, InsertError};
use sockmap::index::AddrState;

use std::collections::HashSet;

fn ipv4(a: u32, b: u32, c: u32, d: u32) -> u32 {
    (a << 24) | (b << 16) | (c << 8) | d
}

fn listener_addr() -> ListenerAddr {
    ListenerAddr {
        ip: ListenerIpAddr { addr: Some(ipv4(1, 2, 3, 4)), identifier: 0 },
        device: None,
    }
}

fn conn_addr() -> ConnAddr {
    ConnAddr {
        ip: ConnIpAddr {
            local_ip: ipv4(5, 6, 7, 8),
            local_identifier: 0,
            remote_ip: ipv4(8, 7, 6, 5),
            remote_identifier: 0,
        },
        device: None,
    }
}

#[test]
fn bound_insert_get_remove_listener() {
    let mut bound = BoundSocketMap::default();

    let addr = listener_addr();

    let id = bound.listeners_try_insert(addr, 0, 'v').unwrap();
    assert_eq!(bound.listeners_get_by_id(id), Some((0, 'v', addr)));
    let expected = AddrState { sharing: 'v', ids: vec![id] };
    assert_eq!(bound.listeners_get_by_addr(&addr), Some(&expected));

    assert_eq!(bound.listeners_remove(id), Some((0, 'v', addr)));
    assert_eq!(bound.listeners_get_by_addr(&addr), None);
    assert_eq!(bound.listeners_get_by_id(id), None);
}

#[test]
fn bound_insert_get_remove_conn() {
    let mut bound = BoundSocketMap::default();

    let addr = conn_addr();

    let id = bound.conns_try_insert(addr, 0, 'v').unwrap();
    assert_eq!(bound.conns_get_by_id(id), Some((0, 'v', addr)));
    let expected = AddrState { sharing: 'v', ids: vec![id] };
    assert_eq!(bound.conns_get_by_addr(&addr), Some(&expected));

    assert_eq!(bound.conns_remove(id), Some((0, 'v', addr)));
    assert_eq!(bound.conns_get_by_addr(&addr), None);
    assert_eq!(bound.conns_get_by_id(id), None);
}

#[test]
fn bound_iter_addrs() {
    let mut bound = BoundSocketMap::default();

    let listener_addrs = [
        (Some(ipv4(1, 1, 1, 1)), 1),
        (Some(ipv4(2, 2, 2, 2)), 2),
        (Some(ipv4(1, 1, 1, 1)), 3),
        (None, 4),
    ]
    .map(|(ip, identifier)| ListenerAddr {
        device: None,
        ip: ListenerIpAddr { addr: ip, identifier },
    });
    let conn_addrs = [
        (ipv4(3, 3, 3, 3), 3, ipv4(4, 4, 4, 4)),
        (ipv4(4, 4, 4, 4), 3, ipv4(3, 3, 3, 3)),
    ]
    .map(|(local_ip, local_identifier, remote_ip)| ConnAddr {
        ip: ConnIpAddr { local_ip, local_identifier, remote_ip, remote_identifier: 0 },
        device: None,
    });

    for addr in listener_addrs.iter().cloned() {
        let _: usize = bound.listeners_try_insert(addr, 1, 'a').unwrap();
    }
    for addr in conn_addrs.iter().cloned() {
        let _: usize = bound.conns_try_insert(addr, 1, 'a').unwrap();
    }
    let expected_addrs = IntoIterator::into_iter(listener_addrs)
        .map(AddrVec::Listen)
        .chain(IntoIterator::into_iter(conn_addrs).map(AddrVec::Conn))
        .collect::<HashSet<_>>();

    let got = bound.iter_addrs();
    assert_eq!(got.len(), listener_addrs.len() + conn_addrs.len());
    assert_eq!(expected_addrs, got.into_iter().collect::<HashSet<_>>());
}

#[test]
fn insert_listener_conflict_with_listener() {
    let mut bound = BoundSocketMap::default();
    let addr = listener_addr();

    let _id = bound.listeners_try_insert(addr, 0, 'a').unwrap();
    assert_eq!(
        bound.listeners_try_insert(addr, 0, 'b'),
        Err((InsertError::Exists, 0, 'b'))
    );
}

#[test]
fn insert_listener_conflict_with_shadower() {
    let mut bound = BoundSocketMap::default();
    let addr = listener_addr();
    let shadows_addr = {
        assert_eq!(addr.device, None);
        ListenerAddr { device: Some(1), ..addr }
    };

    let _id = bound.listeners_try_insert(addr, 0, 'a').unwrap();
    assert_eq!(
        bound.listeners_try_insert(shadows_addr, 0, 'b'),
        Err((InsertError::ShadowAddrExists, 0, 'b'))
    );
}

#[test]
fn insert_conn_conflict_with_listener() {
    let mut bound = BoundSocketMap::default();
    let addr = listener_addr();
    let shadows_addr = ConnAddr {
        device: None,
        ip: ConnIpAddr {
            local_ip: addr.ip.addr.unwrap(),
            local_identifier: addr.ip.identifier,
            remote_ip: ipv4(1, 1, 1, 1),
            remote_identifier: 0,
        },
    };

    let _id = bound.listeners_try_insert(addr, 0, 'a').unwrap();
    assert_eq!(
        bound.conns_try_insert(shadows_addr, 0, 'b'),
        Err((InsertError::ShadowAddrExists, 0, 'b'))
    );
}

#[test]
fn insert_and_remove_listener() {
    let mut bound = BoundSocketMap::default();
    let addr = listener_addr();

    let a = bound.listeners_try_insert(addr, 0, 'x').unwrap();
    let b = bound.listeners_try_insert(addr, 0, 'x').unwrap();
    assert_ne!(a, b);

    assert_eq!(bound.listeners_remove(a), Some((0, 'x', addr)));
    let expected = AddrState { sharing: 'x', ids: vec![b] };
    assert_eq!(bound.listeners_get_by_addr(&addr), Some(&expected));
}

#[test]
fn insert_and_remove_conn() {
    let mut bound = BoundSocketMap::default();
    let addr = conn_addr();

    let a = bound.conns_try_insert(addr, 0, 'x').unwrap();
    let b = bound.conns_try_insert(addr, 0, 'x').unwrap();
    assert_ne!(a, b);

    assert_eq!(bound.conns_remove(a), Some((0, 'x', addr)));
    let expected = AddrState { sharing: 'x', ids: vec![b] };
    assert_eq!(bound.conns_get_by_addr(&addr), Some(&expected));
}

#[test]
fn update_listener_to_shadowed_addr_fails() {
    let mut bound = BoundSocketMap::default();

    let first_addr = listener_addr();
    let second_addr = ListenerAddr {
        ip: ListenerIpAddr { addr: Some(ipv4(1, 1, 1, 1)), ..first_addr.ip },
        ..first_addr
    };
    let both_shadow = ListenerAddr {
        ip: ListenerIpAddr { addr: None, identifier: first_addr.ip.identifier },
        device: None,
    };

    let first = bound.listeners_try_insert(first_addr, 0, 'a').unwrap();
    let second = bound.listeners_try_insert(second_addr, 0, 'b').unwrap();

    // Moving either specific listener to the common wildcard address must
    // fail: the other one shadows it.
    assert_eq!(bound.listeners_try_update_addr(second, both_shadow), Err(ExistsError));
    assert_eq!(bound.listeners_try_update_addr(first, both_shadow), Err(ExistsError));
}

#[test]
fn get_listeners_by_id_mut() {
    let mut map = BoundSocketMap::default();
    let addr = listener_addr();
    let listener_id = map.listeners_try_insert(addr, 0, 'x').expect("failed to insert");
    assert!(map.listeners_set_state(listener_id, 2));

    assert_eq!(map.listeners_remove(listener_id), Some((2, 'x', addr)));
}

#[test]
fn get_conn_by_id_mut() {
    let mut map = BoundSocketMap::default();
    let addr = conn_addr();
    let conn_id = map.conns_try_insert(addr, 0, 'a').expect("failed to insert");
    assert!(map.conns_set_state(conn_id, 2));

    assert_eq!(map.conns_remove(conn_id), Some((2, 'a', addr)));
}

#[test]
fn shadow_rejection_wildcard_with_device() {
    // A wildcard listener with no device occupies (ip=None, id=7); binding
    // the same wildcard with a device set is shadowed by it.
    let mut bound = BoundSocketMap::default();
    let base = ListenerAddr { ip: ListenerIpAddr { addr: None, identifier: 7 }, device: None };
    let with_device =
        ListenerAddr { ip: ListenerIpAddr { addr: None, identifier: 7 }, device: Some(3) };

    let _id = bound.listeners_try_insert(base, 0, 'a').unwrap();
    assert_eq!(
        bound.listeners_try_insert(with_device, 0, 'a'),
        Err((InsertError::ShadowAddrExists, 0, 'a'))
    );
}

#[test]
fn insert_shadowed_listener_reports_shadower() {
    // A specific listener exists; binding the wildcard underneath it fails
    // because the wildcard already has a live descendant.
    let mut bound = BoundSocketMap::default();
    let specific = listener_addr();
    let wildcard = ListenerAddr {
        ip: ListenerIpAddr { addr: None, identifier: specific.ip.identifier },
        device: None,
    };

    let _id = bound.listeners_try_insert(specific, 0, 'a').unwrap();
    assert_eq!(
        bound.listeners_try_insert(wildcard, 0, 'a'),
        Err((InsertError::ShadowerExists, 0, 'a'))
    );
}

#[test]
fn multi_occupant_last_removal_clears_entry() {
    let mut bound = BoundSocketMap::default();
    let addr = listener_addr();

    let a = bound.listeners_try_insert(addr, 10, 'x').unwrap();
    let b = bound.listeners_try_insert(addr, 20, 'x').unwrap();

    assert_eq!(bound.listeners_remove(a), Some((10, 'x', addr)));
    assert!(bound.listeners_get_by_addr(&addr).is_some());
    assert_eq!(bound.listeners_remove(b), Some((20, 'x', addr)));
    assert_eq!(bound.listeners_get_by_addr(&addr), None);
}

#[test]
fn update_failure_leaves_map_unchanged() {
    let mut bound = BoundSocketMap::default();

    let first_addr = listener_addr();
    let second_addr = ListenerAddr {
        ip: ListenerIpAddr { addr: Some(ipv4(1, 1, 1, 1)), ..first_addr.ip },
        ..first_addr
    };
    let both_shadow = ListenerAddr {
        ip: ListenerIpAddr { addr: None, identifier: first_addr.ip.identifier },
        device: None,
    };

    let first = bound.listeners_try_insert(first_addr, 1, 'a').unwrap();
    let second = bound.listeners_try_insert(second_addr, 2, 'b').unwrap();

    assert_eq!(bound.listeners_try_update_addr(first, both_shadow), Err(ExistsError));

    // Both listeners are exactly where they were.
    assert_eq!(bound.listeners_get_by_id(first), Some((1, 'a', first_addr)));
    assert_eq!(bound.listeners_get_by_id(second), Some((2, 'b', second_addr)));
    let expected_first = AddrState { sharing: 'a', ids: vec![first] };
    let expected_second = AddrState { sharing: 'b', ids: vec![second] };
    assert_eq!(bound.listeners_get_by_addr(&first_addr), Some(&expected_first));
    assert_eq!(bound.listeners_get_by_addr(&second_addr), Some(&expected_second));
}

#[test]
fn update_listener_to_free_addr_moves_it() {
    let mut bound = BoundSocketMap::default();
    let from = listener_addr();
    let to = ListenerAddr {
        ip: ListenerIpAddr { addr: Some(ipv4(9, 9, 9, 9)), identifier: 11 },
        device: None,
    };

    let id = bound.listeners_try_insert(from, 5, 'a').unwrap();
    assert_eq!(bound.listeners_try_update_addr(id, to), Ok(()));

    assert_eq!(bound.listeners_get_by_addr(&from), None);
    let expected = AddrState { sharing: 'a', ids: vec![id] };
    assert_eq!(bound.listeners_get_by_addr(&to), Some(&expected));
    assert_eq!(bound.listeners_get_by_id(id), Some((5, 'a', to)));
}

#[test]
fn update_conn_to_occupied_addr_fails() {
    let mut bound = BoundSocketMap::default();
    let a = conn_addr();
    let b = ConnAddr {
        ip: ConnIpAddr {
            local_ip: ipv4(9, 9, 9, 9),
            local_identifier: 1,
            remote_ip: ipv4(10, 10, 10, 10),
            remote_identifier: 2,
        },
        device: None,
    };

    let ida = bound.conns_try_insert(a, 1, 'a').unwrap();
    let _idb = bound.conns_try_insert(b, 2, 'a').unwrap();

    assert_eq!(bound.conns_try_update_addr(ida, b), Err(ExistsError));
    assert_eq!(bound.conns_get_by_id(ida), Some((1, 'a', a)));
}

#[test]
fn update_checks_target_occupancy_and_descendants_only() {
    // Relocation checks whether the target is occupied or has occupied
    // descendants; unlike insertion it raises no conflict against an
    // occupied address that the target would shadow.
    let mut bound = BoundSocketMap::default();
    let wildcard = ListenerAddr { ip: ListenerIpAddr { addr: None, identifier: 5 }, device: None };
    let elsewhere = ListenerAddr {
        ip: ListenerIpAddr { addr: Some(ipv4(7, 7, 7, 7)), identifier: 6 },
        device: None,
    };
    let target = ListenerAddr {
        ip: ListenerIpAddr { addr: Some(ipv4(7, 7, 7, 7)), identifier: 5 },
        device: None,
    };

    let _w = bound.listeners_try_insert(wildcard, 0, 'a').unwrap();
    let id = bound.listeners_try_insert(elsewhere, 0, 'a').unwrap();

    assert_eq!(bound.listeners_try_update_addr(id, target), Ok(()));
    assert_eq!(bound.listeners_get_by_id(id), Some((0, 'a', target)));
}

#[test]
fn shadower_counts_totals_occupants() {
    let mut bound = BoundSocketMap::default();
    let specific = listener_addr();
    let wildcard = ListenerAddr {
        ip: ListenerIpAddr { addr: None, identifier: specific.ip.identifier },
        device: None,
    };

    assert_eq!(bound.get_shadower_counts(&AddrVec::Listen(wildcard)), 0);

    let _a = bound.listeners_try_insert(specific, 0, 's').unwrap();
    let _b = bound.listeners_try_insert(specific, 0, 's').unwrap();

    assert_eq!(bound.get_shadower_counts(&AddrVec::Listen(wildcard)), 2);
    assert_eq!(bound.get_shadower_counts(&AddrVec::Listen(specific)), 0);
}
