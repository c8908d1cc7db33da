//! Laws of the bound-socket map, stated over its mathematical model and
//! proved from the same spec functions its operation contracts use.

use vstd::prelude::*;

use crate::addr::{lemma_shadow_seq_strict, shadow_seq, shadows, AddrVec, ConnAddr, ListenerAddr};
use crate::bound::{
    conn_insert_effect, conn_remove_rel, insert_decision, inv, listener_insert_effect,
    listener_remove_rel, listener_update_fails, BoundMapModel, InsertError,
};

verus! {

/// Round-trip: inserting a listener at a previously vacant address and then
/// removing the returned identifier hands back exactly the inserted
/// `(state, sharing, addr)` triple, restores the map to its prior state,
/// and leaves nothing at the address.
pub proof fn lemma_insert_remove_round_trip(
    m: BoundMapModel,
    addr: ListenerAddr,
    state: u64,
    sharing: char,
    id: usize,
    m2: BoundMapModel,
)
    requires
        inv(m),
        insert_decision(m.addrs, AddrVec::Listen(addr), sharing) is None,
        !m.listeners.dom().contains(id),
        !m.addrs.dom().contains(AddrVec::Listen(addr)),
        listener_remove_rel(listener_insert_effect(m, addr, state, sharing, id), id, m2),
    ensures
        listener_insert_effect(m, addr, state, sharing, id).listeners[id] == (state, sharing, addr),
        m2 == m,
        !m2.addrs.dom().contains(AddrVec::Listen(addr)),
{
    let k = AddrVec::Listen(addr);
    let m1 = listener_insert_effect(m, addr, state, sharing, id);
    assert(m1.addrs[k].ids() == seq![id]);
    assert(m1.addrs[k].ids().len() == 1);
    assert(m2.addrs == m1.addrs.remove(k));
    assert(m2.addrs =~= m.addrs);
    assert(m2.listeners =~= m.listeners);
    assert(m2 == m);
}

/// Round-trip for connected sockets: inserting a connection at a
/// previously vacant address and then removing the returned identifier
/// hands back exactly the inserted triple, restores the map, and leaves
/// nothing at the address.
pub proof fn lemma_insert_remove_round_trip_conn(
    m: BoundMapModel,
    addr: ConnAddr,
    state: u64,
    sharing: char,
    id: usize,
    m2: BoundMapModel,
)
    requires
        inv(m),
        insert_decision(m.addrs, AddrVec::Conn(addr), sharing) is None,
        !m.conns.dom().contains(id),
        !m.addrs.dom().contains(AddrVec::Conn(addr)),
        conn_remove_rel(conn_insert_effect(m, addr, state, sharing, id), id, m2),
    ensures
        conn_insert_effect(m, addr, state, sharing, id).conns[id] == (state, sharing, addr),
        m2 == m,
        !m2.addrs.dom().contains(AddrVec::Conn(addr)),
{
    let k = AddrVec::Conn(addr);
    let m1 = conn_insert_effect(m, addr, state, sharing, id);
    assert(m1.addrs[k].ids() == seq![id]);
    assert(m1.addrs[k].ids().len() == 1);
    assert(m2.addrs == m1.addrs.remove(k));
    assert(m2.addrs =~= m.addrs);
    assert(m2.conns =~= m.conns);
    assert(m2 == m);
}

/// No double occupancy without a compatible tag: after a listener with
/// sharing state `a` occupies a previously vacant, unshadowed address,
/// inserting there with a different sharing state `b` is rejected with
/// `Exists`.  (The operation contract then guarantees the map, and with it
/// the first entry, is unchanged.)
pub proof fn lemma_second_insert_incompatible_tag(
    m: BoundMapModel,
    addr: ListenerAddr,
    state: u64,
    a: char,
    b: char,
    id: usize,
)
    requires
        inv(m),
        a != b,
        insert_decision(m.addrs, AddrVec::Listen(addr), a) is None,
        !m.listeners.dom().contains(id),
        !m.addrs.dom().contains(AddrVec::Listen(addr)),
    ensures
        insert_decision(
            listener_insert_effect(m, addr, state, a, id).addrs,
            AddrVec::Listen(addr),
            b,
        ) == Some(InsertError::Exists),
{
    let k = AddrVec::Listen(addr);
    let m1 = listener_insert_effect(m, addr, state, a, id);
    lemma_shadow_seq_strict(k);
    assert forall|j: int| 0 <= j < shadow_seq(k).len() implies !m1.addrs.dom().contains(
        #[trigger] shadow_seq(k)[j],
    ) by {
        assert(shadow_seq(k)[j] != k);
        assert(!m.addrs.dom().contains(shadow_seq(k)[j]));
    }
    assert(m1.addrs.dom().contains(k));
    assert(m1.addrs[k].sharing() == a);
}

/// Multi-occupant coexistence: with equal sharing tags, a second insertion
/// at the same occupied address succeeds and the entry lists both
/// identifiers; removing one leaves the entry populated with exactly the
/// other, and removing the last deletes the entry entirely.
pub proof fn lemma_multi_occupant_coexistence(
    m: BoundMapModel,
    addr: ListenerAddr,
    s1: u64,
    s2: u64,
    c: char,
    id1: usize,
    id2: usize,
    m3: BoundMapModel,
    m4: BoundMapModel,
)
    requires
        inv(m),
        insert_decision(m.addrs, AddrVec::Listen(addr), c) is None,
        !m.addrs.dom().contains(AddrVec::Listen(addr)),
        !m.listeners.dom().contains(id1),
        !m.listeners.dom().contains(id2),
        id1 != id2,
        listener_remove_rel(
            listener_insert_effect(
                listener_insert_effect(m, addr, s1, c, id1),
                addr,
                s2,
                c,
                id2,
            ),
            id1,
            m3,
        ),
        listener_remove_rel(m3, id2, m4),
    ensures
        insert_decision(listener_insert_effect(m, addr, s1, c, id1).addrs, AddrVec::Listen(addr), c)
            is None,
        listener_insert_effect(
            listener_insert_effect(m, addr, s1, c, id1),
            addr,
            s2,
            c,
            id2,
        ).addrs[AddrVec::Listen(addr)].ids() == seq![id1, id2],
        m3.addrs.dom().contains(AddrVec::Listen(addr)),
        m3.addrs[AddrVec::Listen(addr)].ids() == seq![id2],
        !m4.addrs.dom().contains(AddrVec::Listen(addr)),
{
    let k = AddrVec::Listen(addr);
    let m1 = listener_insert_effect(m, addr, s1, c, id1);
    let m2 = listener_insert_effect(m1, addr, s2, c, id2);
    lemma_shadow_seq_strict(k);

    // The second insertion passes the conflict check: the first one put
    // nothing at any address that shadows `k` or that `k` shadows.
    assert forall|j: int| 0 <= j < shadow_seq(k).len() implies !m1.addrs.dom().contains(
        #[trigger] shadow_seq(k)[j],
    ) by {
        assert(shadow_seq(k)[j] != k);
        assert(!m.addrs.dom().contains(shadow_seq(k)[j]));
    }
    assert(m1.addrs[k].sharing() == c);
    assert(!crate::index::has_descendant(m1.addrs, k)) by {
        if crate::index::has_descendant(m1.addrs, k) {
            let d = choose|d: AddrVec| m1.addrs.dom().contains(d) && shadows(d, k);
            assert(!shadows(k, k));
            assert(m.addrs.dom().contains(d));
            assert(crate::index::has_descendant(m.addrs, k));
        }
    }
    assert(insert_decision(m1.addrs, k, c) is None);

    // Both identifiers occupy the one entry, in insertion order.
    assert(m1.addrs[k].ids() == seq![id1]);
    assert(m2.addrs[k] == crate::index::with_id(m1.addrs[k], id2));
    assert(m2.addrs[k].ids() =~= seq![id1, id2]);

    // Removing `id1` leaves the entry populated with exactly `id2`.
    assert(m2.listeners[id1].2 == addr);
    assert(m2.addrs[k].ids().len() == 2);
    assert(m3.addrs.dom() == m2.addrs.dom());
    assert(crate::index::shrunk_by(m2.addrs[k], id1, m3.addrs[k]));
    let ids3 = m3.addrs[k].ids();
    assert(ids3.len() == 1);
    assert(m2.addrs[k].ids().contains(id2)) by {
        assert(m2.addrs[k].ids()[1] == id2);
    }
    assert(ids3.to_set().contains(id2)) by {
        assert(m2.addrs[k].ids().to_set().contains(id2));
        assert(m2.addrs[k].ids().to_set().remove(id1).contains(id2));
    }
    assert(ids3[0] == id2) by {
        let j = choose|j: int| 0 <= j < ids3.len() && ids3[j] == id2;
        assert(j == 0);
    }
    assert(ids3 =~= seq![id2]);

    // Removing the last occupant deletes the entry.
    assert(m3.listeners[id2].2 == addr);
    assert(m3.addrs[k].ids().len() == 1);
    assert(m4.addrs == m3.addrs.remove(k));
}

/// Updating a listener to an address that a different live listener
/// shadows must fail.  (The operation contract then guarantees both
/// listeners and the whole map are unchanged.)
pub proof fn lemma_update_to_shadowed_addr_fails(
    m: BoundMapModel,
    id: usize,
    other: usize,
    new_addr: ListenerAddr,
)
    requires
        inv(m),
        m.listeners.dom().contains(id),
        m.listeners.dom().contains(other),
        other != id,
        m.listeners[other].2 != m.listeners[id].2,
        shadows(AddrVec::Listen(m.listeners[other].2), AddrVec::Listen(new_addr)),
    ensures
        listener_update_fails(m, id, new_addr),
{
    let d = AddrVec::Listen(m.listeners[other].2);
    let old_k = AddrVec::Listen(m.listeners[id].2);
    let new_k = AddrVec::Listen(new_addr);
    assert(crate::bound::listener_linked(m, other));
    assert(m.addrs.dom().contains(d));
    assert(d != old_k);
    assert(m.addrs.dom().contains(d) && shadows(d, new_k) && !(d == old_k && m.addrs[
        old_k
    ].ids().len() == 1));
}

/// Every live listener identifier is a member of exactly one entry of the
/// address index: two listening entries that both list it are the same.
pub proof fn lemma_listener_membership_unique(
    m: BoundMapModel,
    id: usize,
    k1: AddrVec,
    k2: AddrVec,
)
    requires
        inv(m),
        m.addrs.dom().contains(k1),
        m.addrs.dom().contains(k2),
        k1 is Listen,
        k2 is Listen,
        m.addrs[k1].ids().contains(id),
        m.addrs[k2].ids().contains(id),
    ensures
        k1 == k2,
{
    assert(crate::bound::entry_ok(m, k1));
    assert(crate::bound::entry_ok(m, k2));
    let j1 = choose|j: int| 0 <= j < m.addrs[k1].ids().len() && m.addrs[k1].ids()[j] == id;
    let j2 = choose|j: int| 0 <= j < m.addrs[k2].ids().len() && m.addrs[k2].ids()[j] == id;
    assert(m.addrs[k1].ids()[j1] == id);
    assert(m.addrs[k2].ids()[j2] == id);
    match k1 {
        AddrVec::Listen(a1) => {
            assert(m.listeners[id].2 == a1);
        }
        AddrVec::Conn(_) => {}
    }
    match k2 {
        AddrVec::Listen(a2) => {
            assert(m.listeners[id].2 == a2);
        }
        AddrVec::Conn(_) => {}
    }
}

/// Every live connection identifier is a member of exactly one entry of
/// the address index: two connected entries that both list it are the same.
pub proof fn lemma_conn_membership_unique(m: BoundMapModel, id: usize, k1: AddrVec, k2: AddrVec)
    requires
        inv(m),
        m.addrs.dom().contains(k1),
        m.addrs.dom().contains(k2),
        k1 is Conn,
        k2 is Conn,
        m.addrs[k1].ids().contains(id),
        m.addrs[k2].ids().contains(id),
    ensures
        k1 == k2,
{
    assert(crate::bound::entry_ok(m, k1));
    assert(crate::bound::entry_ok(m, k2));
    let j1 = choose|j: int| 0 <= j < m.addrs[k1].ids().len() && m.addrs[k1].ids()[j] == id;
    let j2 = choose|j: int| 0 <= j < m.addrs[k2].ids().len() && m.addrs[k2].ids()[j] == id;
    assert(m.addrs[k1].ids()[j1] == id);
    assert(m.addrs[k2].ids()[j2] == id);
    match k1 {
        AddrVec::Conn(a1) => {
            assert(m.conns[id].2 == a1);
        }
        AddrVec::Listen(_) => {}
    }
    match k2 {
        AddrVec::Conn(a2) => {
            assert(m.conns[id].2 == a2);
        }
        AddrVec::Listen(_) => {}
    }
}

/// Iteration completeness: inserting any number of distinct, previously
/// vacant addresses grows the set of occupied addresses by exactly that
/// many, so a snapshot of the occupied addresses lists every inserted
/// address exactly once.  (Each successful insertion at a vacant address
/// adds exactly its key to the domain, by the insertion contracts.)
pub proof fn lemma_iter_addrs_complete(dom0: Set<AddrVec>, keys: Seq<AddrVec>)
    requires
        dom0.finite(),
        keys.no_duplicates(),
        forall|i: int| 0 <= i < keys.len() ==> !dom0.contains(#[trigger] keys[i]),
    ensures
        (dom0 + keys.to_set()).finite(),
        (dom0 + keys.to_set()).len() == dom0.len() + keys.len(),
    decreases keys.len(),
{
    if keys.len() == 0 {
        assert(dom0 + keys.to_set() =~= dom0);
    } else {
        let rest = keys.drop_last();
        let x = keys.last();
        assert(rest.no_duplicates());
        assert forall|i: int| 0 <= i < rest.len() implies !dom0.contains(#[trigger] rest[i]) by {
            assert(rest[i] == keys[i]);
        }
        lemma_iter_addrs_complete(dom0, rest);
        assert forall|i: int| 0 <= i < rest.len() implies rest[i] != x by {
            assert(keys[i] == rest[i]);
        }
        assert(!rest.to_set().contains(x)) by {
            if rest.to_set().contains(x) {
                let i = choose|i: int| 0 <= i < rest.len() && rest[i] == x;
            }
        }
        assert(!dom0.contains(x)) by {
            assert(keys[keys.len() - 1] == x);
        }
        assert(keys.to_set() =~= rest.to_set().insert(x)) by {
            assert forall|a: AddrVec| keys.to_set().contains(a) implies rest.to_set().insert(
                x,
            ).contains(a) by {
                let i = choose|i: int| 0 <= i < keys.len() && keys[i] == a;
                if i < keys.len() - 1 {
                    assert(rest[i] == a);
                }
            }
            assert forall|a: AddrVec| rest.to_set().insert(x).contains(a) implies
                keys.to_set().contains(a) by {
                if a == x {
                    assert(keys[keys.len() - 1] == a);
                } else {
                    let i = choose|i: int| 0 <= i < rest.len() && rest[i] == a;
                    assert(keys[i] == a);
                }
            }
        }
        assert(dom0 + keys.to_set() =~= (dom0 + rest.to_set()).insert(x));
        assert(!(dom0 + rest.to_set()).contains(x));
    }
}

} // verus!
