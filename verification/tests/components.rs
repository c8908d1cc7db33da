use sockmap::addr::{iter_shadows, shadows_addr, AddrVec, ConnAddr, ConnIpAddr, ListenerAddr, ListenerIpAddr};
use sockmap::conn::{ConnSocketEntry, ConnSocketMap};
use sockmap::id_map::IdMap;
use sockmap::index::{
    AddrState, Bound, IncompatibleError, RemoveResult, SocketAddrType, SocketAddrTypeTag,
    SocketMap,
};

fn listen(ip: Option<u32>, identifier: u16, device: Option<u32>) -> AddrVec {
    AddrVec::Listen(ListenerAddr { ip: ListenerIpAddr { addr: ip, identifier }, device })
}

fn conn(local_ip: u32, local_identifier: u16, remote_ip: u32, device: Option<u32>) -> AddrVec {
    AddrVec::Conn(ConnAddr {
        ip: ConnIpAddr { local_ip, local_identifier, remote_ip, remote_identifier: 0 },
        device,
    })
}

#[test]
fn shadow_chain_of_wildcard_listener_is_empty() {
    assert_eq!(iter_shadows(&listen(None, 7, None)), vec![]);
}

#[test]
fn shadow_chain_of_specific_listener() {
    assert_eq!(iter_shadows(&listen(Some(8), 7, None)), vec![listen(None, 7, None)]);
}

#[test]
fn shadow_chain_of_wildcard_listener_with_device() {
    assert_eq!(iter_shadows(&listen(None, 7, Some(2))), vec![listen(None, 7, None)]);
}

#[test]
fn shadow_chain_of_specific_listener_with_device() {
    assert_eq!(
        iter_shadows(&listen(Some(8), 7, Some(2))),
        vec![listen(Some(8), 7, None), listen(None, 7, Some(2)), listen(None, 7, None)]
    );
}

#[test]
fn shadow_chain_of_conn() {
    assert_eq!(
        iter_shadows(&conn(8, 7, 9, None)),
        vec![listen(Some(8), 7, None), listen(None, 7, None)]
    );
}

#[test]
fn shadow_chain_of_conn_with_device() {
    assert_eq!(
        iter_shadows(&conn(8, 7, 9, Some(2))),
        vec![
            conn(8, 7, 9, None),
            listen(Some(8), 7, Some(2)),
            listen(Some(8), 7, None),
            listen(None, 7, Some(2)),
            listen(None, 7, None),
        ]
    );
}

#[test]
fn shadows_addr_is_strict() {
    let a = listen(Some(8), 7, Some(2));
    assert!(!shadows_addr(&a, &a));
    assert!(shadows_addr(&a, &listen(None, 7, None)));
    assert!(!shadows_addr(&listen(None, 7, None), &a));
}

#[test]
fn id_map_push_get_remove() {
    let mut m: IdMap<u32> = IdMap::new();
    let a = m.push(10);
    let b = m.push(20);
    assert_ne!(a, b);
    assert_eq!(m.get(a), Some(&10));
    assert_eq!(m.get(b), Some(&20));
    assert_eq!(m.remove(a), Some(10));
    assert_eq!(m.get(a), None);
    assert_eq!(m.remove(a), None);
    // The freed slot may be reused, but the live identifier stays distinct.
    let c = m.push(30);
    assert_ne!(b, c);
    assert_eq!(m.get(b), Some(&20));
    assert_eq!(m.get(c), Some(&30));
}

#[test]
fn id_map_set_replaces_record() {
    let mut m: IdMap<u32> = IdMap::new();
    let a = m.push(1);
    m.set(a, 5);
    assert_eq!(m.get(a), Some(&5));
}

#[test]
fn addr_state_new_and_join() {
    let mut st = AddrState::new_addr_state('s', 4);
    assert_eq!(st, AddrState { sharing: 's', ids: vec![4] });
    assert_eq!(st.try_get_dest('s', 9), Ok(()));
    assert_eq!(st.ids, vec![4, 9]);
    assert_eq!(st.try_get_dest('t', 11), Err(IncompatibleError));
    assert_eq!(st.ids, vec![4, 9]);
}

#[test]
fn addr_state_remove_by_id() {
    let mut st = AddrState::new_addr_state('s', 4);
    assert_eq!(st.try_get_dest('s', 9), Ok(()));
    assert!(matches!(st.remove_by_id(4), RemoveResult::Success));
    assert_eq!(st.ids, vec![9]);
    assert!(matches!(st.remove_by_id(9), RemoveResult::IsLast));
    assert_eq!(st.ids, vec![]);
}

#[test]
fn tags_classify_address_shape() {
    let st = AddrState::new_addr_state('q', 1);
    let b = Bound::Listen(st);
    assert_eq!(
        b.tag(&listen(Some(8), 7, None)),
        SocketAddrTypeTag {
            has_device: false,
            addr_type: SocketAddrType::SpecificListener,
            sharing: 'q'
        }
    );
    assert_eq!(
        b.tag(&listen(None, 7, Some(2))),
        SocketAddrTypeTag {
            has_device: true,
            addr_type: SocketAddrType::AnyListener,
            sharing: 'q'
        }
    );
    let bc = Bound::Conn(AddrState::new_addr_state('q', 1));
    assert_eq!(
        bc.tag(&conn(8, 7, 9, None)),
        SocketAddrTypeTag { has_device: false, addr_type: SocketAddrType::Connected, sharing: 'q' }
    );
}

#[test]
fn descendant_counts_lists_shadowing_entries() {
    let mut m = SocketMap::new();
    let specific = listen(Some(8), 7, None);
    let mut st = AddrState::new_addr_state('s', 1);
    assert_eq!(st.try_get_dest('s', 2), Ok(()));
    m.insert_vacant(specific, Bound::Listen(st));

    let wildcard = listen(None, 7, None);
    assert!(m.has_descendants(&wildcard));
    assert!(!m.has_descendants(&specific));
    assert_eq!(
        m.descendant_counts(&wildcard),
        vec![(
            SocketAddrTypeTag {
                has_device: false,
                addr_type: SocketAddrType::SpecificListener,
                sharing: 's'
            },
            2
        )]
    );
    assert_eq!(m.descendant_counts(&specific), vec![]);
    assert_eq!(m.shadower_count(&wildcard), 2);
    assert_eq!(m.shadower_count(&specific), 0);
}

#[test]
fn conn_socket_map_round_trip() {
    let mut m: ConnSocketMap<u16> = ConnSocketMap::default();
    let a = ConnAddr {
        ip: ConnIpAddr { local_ip: 1, local_identifier: 2, remote_ip: 3, remote_identifier: 4 },
        device: None,
    };
    let b = ConnAddr {
        ip: ConnIpAddr { local_ip: 5, local_identifier: 6, remote_ip: 7, remote_identifier: 8 },
        device: None,
    };
    assert_eq!(m.get_id_by_addr(&a), None);

    let ida = m.insert(a, 100);
    let idb = m.insert(b, 200);
    assert_ne!(ida, idb);

    assert_eq!(m.get_id_by_addr(&a), Some(ida));
    assert_eq!(m.get_id_by_addr(&b), Some(idb));
    assert_eq!(m.get_sock_by_id(ida), Some(&ConnSocketEntry { sock: 100, addr: a }));
    assert_eq!(m.get_sock_by_id(idb), Some(&ConnSocketEntry { sock: 200, addr: b }));
    assert_eq!(m.get_sock_by_id(idb + 1), None);
}
