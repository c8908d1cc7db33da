//! The bound-socket map: a bidirectional map between socket identifiers and
//! socket addresses.
//!
//! Listener and connected sockets are kept in two independent identifier
//! arenas but share one address-vector space.  Every mutating operation
//! keeps the arenas and the address index consistent, and a rejected
//! operation leaves the whole structure unchanged.

use vstd::prelude::*;

use crate::addr::{shadow_seq, shadows, AddrVec, ConnAddr, ListenerAddr};
use crate::id_map::IdMap;
use crate::index::{
    has_descendant, kind_matches, state_ok, with_id, AddrState, AddrStateG, Bound, BoundG,
    SocketMap,
};

verus! {

/// Why an insertion was rejected.
#[derive(Clone, Copy, Debug, PartialEq, Eq, Structural)]
pub enum InsertError {
    /// The candidate address is shadowed by an existing entry.
    ShadowAddrExists,
    /// The exact address is occupied by an incompatible sharing state.
    Exists,
    /// The candidate address already has occupied shadowing descendants.
    ShadowerExists,
    /// Reserved for conflicts detected transitively through the shadow
    /// graph; the structural checks of this map never produce it.
    IndirectConflict,
}

/// Returned when an address relocation target is unavailable.
#[derive(Clone, Copy, Debug, PartialEq, Eq, Structural)]
pub struct ExistsError;

/// Mathematical model of a [`BoundSocketMap`]: the two identifier arenas
/// and the address index.
pub ghost struct BoundMapModel {
    /// Listener records: identifier to (domain state, sharing state, address).
    pub listeners: Map<usize, (u64, char, ListenerAddr)>,
    /// Connection records: identifier to (domain state, sharing state, address).
    pub conns: Map<usize, (u64, char, ConnAddr)>,
    /// The address index: each occupied address vector with its occupants.
    pub addrs: Map<AddrVec, BoundG>,
}

/// The listener record `id` is linked consistently into the address index.
pub open spec fn listener_linked(m: BoundMapModel, id: usize) -> bool {
    let k = AddrVec::Listen(m.listeners[id].2);
    &&& m.addrs.dom().contains(k)
    &&& m.addrs[k] is Listen
    &&& m.addrs[k].ids().contains(id)
    &&& m.addrs[k].sharing() == m.listeners[id].1
}

/// The connection record `id` is linked consistently into the address index.
pub open spec fn conn_linked(m: BoundMapModel, id: usize) -> bool {
    let k = AddrVec::Conn(m.conns[id].2);
    &&& m.addrs.dom().contains(k)
    &&& m.addrs[k] is Conn
    &&& m.addrs[k].ids().contains(id)
    &&& m.addrs[k].sharing() == m.conns[id].1
}

/// The index entry at `k` is well formed and every occupant it lists is a
/// live record with this address and sharing state.
pub open spec fn entry_ok(m: BoundMapModel, k: AddrVec) -> bool {
    &&& kind_matches(k, m.addrs[k])
    &&& state_ok(m.addrs[k].state())
    &&& match k {
        AddrVec::Listen(a) => forall|j: int|
            0 <= j < m.addrs[k].ids().len() ==> {
                let id = #[trigger] m.addrs[k].ids()[j];
                m.listeners.dom().contains(id) && m.listeners[id].1 == m.addrs[k].sharing()
                    && m.listeners[id].2 == a
            },
        AddrVec::Conn(a) => forall|j: int|
            0 <= j < m.addrs[k].ids().len() ==> {
                let id = #[trigger] m.addrs[k].ids()[j];
                m.conns.dom().contains(id) && m.conns[id].1 == m.addrs[k].sharing()
                    && m.conns[id].2 == a
            },
    }
}

/// Structural invariant of the map: every live record is a member of
/// exactly the entry at its address, every entry is non-empty and lists
/// only live records of its own address, and no entry with zero occupants
/// persists.
pub open spec fn inv(m: BoundMapModel) -> bool {
    &&& forall|id: usize| #[trigger] m.listeners.dom().contains(id) ==> listener_linked(m, id)
    &&& forall|id: usize| #[trigger] m.conns.dom().contains(id) ==> conn_linked(m, id)
    &&& forall|k: AddrVec| #[trigger] m.addrs.dom().contains(k) ==> entry_ok(m, k)
}

/// The conflict decision for inserting a socket with sharing state
/// `sharing` at address `k` into the index `addrs`:
///
/// - an occupied address that `k` shadows rejects with `ShadowAddrExists`;
/// - otherwise an occupant of exactly `k` with a different sharing state
///   rejects with `Exists`;
/// - otherwise an occupied address shadowing `k` rejects with
///   `ShadowerExists`;
/// - otherwise the insertion is allowed.
pub open spec fn insert_decision(
    addrs: Map<AddrVec, BoundG>,
    k: AddrVec,
    sharing: char,
) -> Option<InsertError> {
    if exists|j: int|
        0 <= j < shadow_seq(k).len() && addrs.dom().contains(#[trigger] shadow_seq(k)[j]) {
        Some(InsertError::ShadowAddrExists)
    } else if addrs.dom().contains(k) && addrs[k].sharing() != sharing {
        Some(InsertError::Exists)
    } else if has_descendant(addrs, k) {
        Some(InsertError::ShadowerExists)
    } else {
        None
    }
}

/// The model after successfully inserting a listener with fresh identifier
/// `id` at `addr`: the record is added to the listener arena and `id` joins
/// the entry at the address, which is created if vacant.
pub open spec fn listener_insert_effect(
    m: BoundMapModel,
    addr: ListenerAddr,
    state: u64,
    sharing: char,
    id: usize,
) -> BoundMapModel {
    let k = AddrVec::Listen(addr);
    let b = if m.addrs.dom().contains(k) {
        with_id(m.addrs[k], id)
    } else {
        BoundG::Listen(AddrStateG { sharing, ids: seq![id] })
    };
    BoundMapModel {
        listeners: m.listeners.insert(id, (state, sharing, addr)),
        conns: m.conns,
        addrs: m.addrs.insert(k, b),
    }
}

/// The model after successfully inserting a connection with fresh
/// identifier `id` at `addr`.
pub open spec fn conn_insert_effect(
    m: BoundMapModel,
    addr: ConnAddr,
    state: u64,
    sharing: char,
    id: usize,
) -> BoundMapModel {
    let k = AddrVec::Conn(addr);
    let b = if m.addrs.dom().contains(k) {
        with_id(m.addrs[k], id)
    } else {
        BoundG::Conn(AddrStateG { sharing, ids: seq![id] })
    };
    BoundMapModel {
        listeners: m.listeners,
        conns: m.conns.insert(id, (state, sharing, addr)),
        addrs: m.addrs.insert(k, b),
    }
}

/// A fresh identifier is never an occupant of any index entry.
proof fn lemma_fresh_listener_not_occupant(m: BoundMapModel, k: AddrVec, id: usize)
    requires
        inv(m),
        m.addrs.dom().contains(k),
        k is Listen,
        !m.listeners.dom().contains(id),
    ensures
        !m.addrs[k].ids().contains(id),
{
    if m.addrs[k].ids().contains(id) {
        let j = choose|j: int| 0 <= j < m.addrs[k].ids().len() && m.addrs[k].ids()[j] == id;
        assert(entry_ok(m, k));
        assert(m.listeners.dom().contains(m.addrs[k].ids()[j]));
    }
}

/// A fresh identifier is never an occupant of any index entry.
proof fn lemma_fresh_conn_not_occupant(m: BoundMapModel, k: AddrVec, id: usize)
    requires
        inv(m),
        m.addrs.dom().contains(k),
        k is Conn,
        !m.conns.dom().contains(id),
    ensures
        !m.addrs[k].ids().contains(id),
{
    if m.addrs[k].ids().contains(id) {
        let j = choose|j: int| 0 <= j < m.addrs[k].ids().len() && m.addrs[k].ids()[j] == id;
        assert(entry_ok(m, k));
        assert(m.conns.dom().contains(m.addrs[k].ids()[j]));
    }
}

/// Inserting a listener that passed the conflict check preserves the
/// structural invariant.
pub proof fn lemma_listener_insert_inv(
    m: BoundMapModel,
    addr: ListenerAddr,
    state: u64,
    sharing: char,
    id: usize,
)
    requires
        inv(m),
        insert_decision(m.addrs, AddrVec::Listen(addr), sharing) is None,
        !m.listeners.dom().contains(id),
    ensures
        inv(listener_insert_effect(m, addr, state, sharing, id)),
{
    let k = AddrVec::Listen(addr);
    let m2 = listener_insert_effect(m, addr, state, sharing, id);
    if m.addrs.dom().contains(k) {
        assert(entry_ok(m, k));
        assert(m.addrs[k].sharing() == sharing);
        lemma_fresh_listener_not_occupant(m, k, id);
        let old_ids = m.addrs[k].ids();
        let new_ids = m2.addrs[k].ids();
        assert(new_ids == old_ids.push(id));
        assert(new_ids.no_duplicates()) by {
            assert forall|p: int, q: int| 0 <= p < q < new_ids.len() implies new_ids[p]
                != new_ids[q] by {
                if q == new_ids.len() - 1 {
                    assert(old_ids.contains(new_ids[p]));
                }
            }
        }
    }
    assert forall|id2: usize| #[trigger]
        m2.listeners.dom().contains(id2) implies listener_linked(m2, id2) by {
        if id2 == id {
            assert(m2.addrs[k].ids().contains(id)) by {
                let ids2 = m2.addrs[k].ids();
                assert(ids2[ids2.len() - 1] == id);
            }
        } else {
            assert(m.listeners.dom().contains(id2));
            assert(listener_linked(m, id2));
            let k2 = AddrVec::Listen(m.listeners[id2].2);
            if k2 == k {
                assert(m2.addrs[k].ids().contains(id2)) by {
                    let j = choose|j: int|
                        0 <= j < m.addrs[k].ids().len() && m.addrs[k].ids()[j] == id2;
                    assert(m2.addrs[k].ids()[j] == id2);
                }
            }
        }
    }
    assert forall|id2: usize| #[trigger] m2.conns.dom().contains(id2) implies conn_linked(
        m2,
        id2,
    ) by {
        assert(conn_linked(m, id2));
    }
    assert forall|k2: AddrVec| #[trigger] m2.addrs.dom().contains(k2) implies entry_ok(
        m2,
        k2,
    ) by {
        if k2 == k {
            let ids2 = m2.addrs[k].ids();
            assert forall|j: int| 0 <= j < ids2.len() implies {
                let id3 = #[trigger] ids2[j];
                m2.listeners.dom().contains(id3) && m2.listeners[id3].1 == m2.addrs[k].sharing()
                    && m2.listeners[id3].2 == addr
            } by {
                if m.addrs.dom().contains(k) {
                    assert(entry_ok(m, k));
                    if j < ids2.len() - 1 {
                        assert(ids2[j] == m.addrs[k].ids()[j]);
                        assert(m.listeners.dom().contains(m.addrs[k].ids()[j]));
                    } else {
                        assert(ids2[j] == id);
                    }
                } else {
                    assert(ids2 == seq![id]);
                    assert(ids2[j] == id);
                }
            }
            assert(state_ok(m2.addrs[k].state())) by {
                if !m.addrs.dom().contains(k) {
                    assert(m2.addrs[k].ids() == seq![id]);
                    assert(m2.addrs[k].ids().len() == 1);
                    assert(m2.addrs[k].ids().no_duplicates());
                }
            }
        } else {
            assert(m.addrs.dom().contains(k2));
            assert(entry_ok(m, k2));
            assert(m2.addrs[k2] == m.addrs[k2]);
            match k2 {
                AddrVec::Listen(a2) => {
                    let ids2 = m2.addrs[k2].ids();
                    assert forall|j: int| 0 <= j < ids2.len() implies {
                        let id3 = #[trigger] ids2[j];
                        m2.listeners.dom().contains(id3) && m2.listeners[id3].1 == m2.addrs[
                            k2
                        ].sharing() && m2.listeners[id3].2 == a2
                    } by {
                        assert(m.listeners.dom().contains(ids2[j]));
                        assert(ids2[j] != id);
                    }
                }
                AddrVec::Conn(a2) => {
                    let ids2 = m2.addrs[k2].ids();
                    assert forall|j: int| 0 <= j < ids2.len() implies {
                        let id3 = #[trigger] ids2[j];
                        m2.conns.dom().contains(id3) && m2.conns[id3].1 == m2.addrs[k2].sharing()
                            && m2.conns[id3].2 == a2
                    } by {
                        assert(m.conns.dom().contains(ids2[j]));
                    }
                }
            }
        }
    }
}

/// Inserting a connection that passed the conflict check preserves the
/// structural invariant.
pub proof fn lemma_conn_insert_inv(
    m: BoundMapModel,
    addr: ConnAddr,
    state: u64,
    sharing: char,
    id: usize,
)
    requires
        inv(m),
        insert_decision(m.addrs, AddrVec::Conn(addr), sharing) is None,
        !m.conns.dom().contains(id),
    ensures
        inv(conn_insert_effect(m, addr, state, sharing, id)),
{
    let k = AddrVec::Conn(addr);
    let m2 = conn_insert_effect(m, addr, state, sharing, id);
    if m.addrs.dom().contains(k) {
        assert(entry_ok(m, k));
        assert(m.addrs[k].sharing() == sharing);
        lemma_fresh_conn_not_occupant(m, k, id);
        let old_ids = m.addrs[k].ids();
        let new_ids = m2.addrs[k].ids();
        assert(new_ids == old_ids.push(id));
        assert(new_ids.no_duplicates()) by {
            assert forall|p: int, q: int| 0 <= p < q < new_ids.len() implies new_ids[p]
                != new_ids[q] by {
                if q == new_ids.len() - 1 {
                    assert(old_ids.contains(new_ids[p]));
                }
            }
        }
    }
    assert forall|id2: usize| #[trigger] m2.conns.dom().contains(id2) implies conn_linked(
        m2,
        id2,
    ) by {
        if id2 == id {
            assert(m2.addrs[k].ids().contains(id)) by {
                let ids2 = m2.addrs[k].ids();
                assert(ids2[ids2.len() - 1] == id);
            }
        } else {
            assert(m.conns.dom().contains(id2));
            assert(conn_linked(m, id2));
            let k2 = AddrVec::Conn(m.conns[id2].2);
            if k2 == k {
                assert(m2.addrs[k].ids().contains(id2)) by {
                    let j = choose|j: int|
                        0 <= j < m.addrs[k].ids().len() && m.addrs[k].ids()[j] == id2;
                    assert(m2.addrs[k].ids()[j] == id2);
                }
            }
        }
    }
    assert forall|id2: usize| #[trigger]
        m2.listeners.dom().contains(id2) implies listener_linked(m2, id2) by {
        assert(listener_linked(m, id2));
    }
    assert forall|k2: AddrVec| #[trigger] m2.addrs.dom().contains(k2) implies entry_ok(
        m2,
        k2,
    ) by {
        if k2 == k {
            let ids2 = m2.addrs[k].ids();
            assert forall|j: int| 0 <= j < ids2.len() implies {
                let id3 = #[trigger] ids2[j];
                m2.conns.dom().contains(id3) && m2.conns[id3].1 == m2.addrs[k].sharing()
                    && m2.conns[id3].2 == addr
            } by {
                if m.addrs.dom().contains(k) {
                    assert(entry_ok(m, k));
                    if j < ids2.len() - 1 {
                        assert(ids2[j] == m.addrs[k].ids()[j]);
                        assert(m.conns.dom().contains(m.addrs[k].ids()[j]));
                    } else {
                        assert(ids2[j] == id);
                    }
                } else {
                    assert(ids2 == seq![id]);
                    assert(ids2[j] == id);
                }
            }
            assert(state_ok(m2.addrs[k].state())) by {
                if !m.addrs.dom().contains(k) {
                    assert(m2.addrs[k].ids() == seq![id]);
                    assert(m2.addrs[k].ids().len() == 1);
                    assert(m2.addrs[k].ids().no_duplicates());
                }
            }
        } else {
            assert(m.addrs.dom().contains(k2));
            assert(entry_ok(m, k2));
            assert(m2.addrs[k2] == m.addrs[k2]);
            match k2 {
                AddrVec::Listen(a2) => {
                    let ids2 = m2.addrs[k2].ids();
                    assert forall|j: int| 0 <= j < ids2.len() implies {
                        let id3 = #[trigger] ids2[j];
                        m2.listeners.dom().contains(id3) && m2.listeners[id3].1 == m2.addrs[
                            k2
                        ].sharing() && m2.listeners[id3].2 == a2
                    } by {
                        assert(m.listeners.dom().contains(ids2[j]));
                    }
                }
                AddrVec::Conn(a2) => {
                    let ids2 = m2.addrs[k2].ids();
                    assert forall|j: int| 0 <= j < ids2.len() implies {
                        let id3 = #[trigger] ids2[j];
                        m2.conns.dom().contains(id3) && m2.conns[id3].1 == m2.addrs[k2].sharing()
                            && m2.conns[id3].2 == a2
                    } by {
                        assert(m.conns.dom().contains(ids2[j]));
                        assert(ids2[j] != id);
                    }
                }
            }
        }
    }
}

/// How removing the listener `id` changes the model: its record leaves the
/// arena, it leaves the occupant set at its address, and an emptied entry
/// is deleted.  (The order of the remaining occupants is not specified.)
pub open spec fn listener_remove_rel(m: BoundMapModel, id: usize, m2: BoundMapModel) -> bool {
    let k = AddrVec::Listen(m.listeners[id].2);
    &&& m2.listeners == m.listeners.remove(id)
    &&& m2.conns == m.conns
    &&& if m.addrs[k].ids().len() == 1 {
        m2.addrs == m.addrs.remove(k)
    } else {
        &&& m2.addrs.dom() == m.addrs.dom()
        &&& crate::index::shrunk_by(m.addrs[k], id, m2.addrs[k])
        &&& forall|k2: AddrVec| #![auto]
            k2 != k && m.addrs.dom().contains(k2) ==> m2.addrs[k2] == m.addrs[k2]
    }
}

/// How removing the connection `id` changes the model.
pub open spec fn conn_remove_rel(m: BoundMapModel, id: usize, m2: BoundMapModel) -> bool {
    let k = AddrVec::Conn(m.conns[id].2);
    &&& m2.listeners == m.listeners
    &&& m2.conns == m.conns.remove(id)
    &&& if m.addrs[k].ids().len() == 1 {
        m2.addrs == m.addrs.remove(k)
    } else {
        &&& m2.addrs.dom() == m.addrs.dom()
        &&& crate::index::shrunk_by(m.addrs[k], id, m2.addrs[k])
        &&& forall|k2: AddrVec| #![auto]
            k2 != k && m.addrs.dom().contains(k2) ==> m2.addrs[k2] == m.addrs[k2]
    }
}

/// Removing a listener preserves the structural invariant.
pub proof fn lemma_listener_remove_inv(m: BoundMapModel, id: usize, m2: BoundMapModel)
    requires
        inv(m),
        m.listeners.dom().contains(id),
        listener_remove_rel(m, id, m2),
    ensures
        inv(m2),
{
    let k = AddrVec::Listen(m.listeners[id].2);
    assert(listener_linked(m, id));
    assert(entry_ok(m, k));
    let sole = m.addrs[k].ids().len() == 1;
    assert forall|id2: usize| #[trigger]
        m2.listeners.dom().contains(id2) implies listener_linked(m2, id2) by {
        assert(m.listeners.dom().contains(id2));
        assert(listener_linked(m, id2));
        assert(id2 != id);
        let k2 = AddrVec::Listen(m.listeners[id2].2);
        if k2 == k {
            if sole {
                let p = choose|p: int| 0 <= p < m.addrs[k].ids().len() && m.addrs[k].ids()[p] == id;
                let q = choose|q: int|
                    0 <= q < m.addrs[k].ids().len() && m.addrs[k].ids()[q] == id2;
                assert(p == 0 && q == 0);
                assert(false);
            } else {
                assert(m.addrs[k].ids().to_set().contains(id2));
                assert(m2.addrs[k].ids().to_set().contains(id2));
            }
        }
    }
    assert forall|id2: usize| #[trigger] m2.conns.dom().contains(id2) implies conn_linked(
        m2,
        id2,
    ) by {
        assert(conn_linked(m, id2));
        let k2 = AddrVec::Conn(m.conns[id2].2);
        assert(k2 != k);
    }
    assert forall|k2: AddrVec| #[trigger] m2.addrs.dom().contains(k2) implies entry_ok(
        m2,
        k2,
    ) by {
        assert(m.addrs.dom().contains(k2));
        assert(entry_ok(m, k2));
        if k2 == k {
            assert(!sole);
            let ids2 = m2.addrs[k].ids();
            assert forall|j: int| 0 <= j < ids2.len() implies {
                let id3 = #[trigger] ids2[j];
                m2.listeners.dom().contains(id3) && m2.listeners[id3].1 == m2.addrs[k].sharing()
                    && m2.listeners[id3].2 == m.listeners[id].2
            } by {
                assert(ids2.to_set().contains(ids2[j]));
                assert(m.addrs[k].ids().to_set().contains(ids2[j]));
                assert(ids2[j] != id);
                let p = choose|p: int|
                    0 <= p < m.addrs[k].ids().len() && m.addrs[k].ids()[p] == ids2[j];
                assert(m.listeners.dom().contains(m.addrs[k].ids()[p]));
            }
        } else {
            assert(m2.addrs[k2] == m.addrs[k2]);
            match k2 {
                AddrVec::Listen(a2) => {
                    let ids2 = m2.addrs[k2].ids();
                    assert forall|j: int| 0 <= j < ids2.len() implies {
                        let id3 = #[trigger] ids2[j];
                        m2.listeners.dom().contains(id3) && m2.listeners[id3].1 == m2.addrs[
                            k2
                        ].sharing() && m2.listeners[id3].2 == a2
                    } by {
                        assert(m.listeners.dom().contains(ids2[j]));
                        assert(m.listeners[ids2[j]].2 == a2);
                        assert(ids2[j] != id);
                    }
                }
                AddrVec::Conn(a2) => {
                    let ids2 = m2.addrs[k2].ids();
                    assert forall|j: int| 0 <= j < ids2.len() implies {
                        let id3 = #[trigger] ids2[j];
                        m2.conns.dom().contains(id3) && m2.conns[id3].1 == m2.addrs[k2].sharing()
                            && m2.conns[id3].2 == a2
                    } by {
                        assert(m.conns.dom().contains(ids2[j]));
                    }
                }
            }
        }
    }
}

/// Removing a connection preserves the structural invariant.
pub proof fn lemma_conn_remove_inv(m: BoundMapModel, id: usize, m2: BoundMapModel)
    requires
        inv(m),
        m.conns.dom().contains(id),
        conn_remove_rel(m, id, m2),
    ensures
        inv(m2),
{
    let k = AddrVec::Conn(m.conns[id].2);
    assert(conn_linked(m, id));
    assert(entry_ok(m, k));
    let sole = m.addrs[k].ids().len() == 1;
    assert forall|id2: usize| #[trigger] m2.conns.dom().contains(id2) implies conn_linked(
        m2,
        id2,
    ) by {
        assert(m.conns.dom().contains(id2));
        assert(conn_linked(m, id2));
        assert(id2 != id);
        let k2 = AddrVec::Conn(m.conns[id2].2);
        if k2 == k {
            if sole {
                let p = choose|p: int| 0 <= p < m.addrs[k].ids().len() && m.addrs[k].ids()[p] == id;
                let q = choose|q: int|
                    0 <= q < m.addrs[k].ids().len() && m.addrs[k].ids()[q] == id2;
                assert(p == 0 && q == 0);
                assert(false);
            } else {
                assert(m.addrs[k].ids().to_set().contains(id2));
                assert(m2.addrs[k].ids().to_set().contains(id2));
            }
        }
    }
    assert forall|id2: usize| #[trigger]
        m2.listeners.dom().contains(id2) implies listener_linked(m2, id2) by {
        assert(listener_linked(m, id2));
        let k2 = AddrVec::Listen(m.listeners[id2].2);
        assert(k2 != k);
    }
    assert forall|k2: AddrVec| #[trigger] m2.addrs.dom().contains(k2) implies entry_ok(
        m2,
        k2,
    ) by {
        assert(m.addrs.dom().contains(k2));
        assert(entry_ok(m, k2));
        if k2 == k {
            assert(!sole);
            let ids2 = m2.addrs[k].ids();
            assert forall|j: int| 0 <= j < ids2.len() implies {
                let id3 = #[trigger] ids2[j];
                m2.conns.dom().contains(id3) && m2.conns[id3].1 == m2.addrs[k].sharing()
                    && m2.conns[id3].2 == m.conns[id].2
            } by {
                assert(ids2.to_set().contains(ids2[j]));
                assert(m.addrs[k].ids().to_set().contains(ids2[j]));
                assert(ids2[j] != id);
                let p = choose|p: int|
                    0 <= p < m.addrs[k].ids().len() && m.addrs[k].ids()[p] == ids2[j];
                assert(m.conns.dom().contains(m.addrs[k].ids()[p]));
            }
        } else {
            assert(m2.addrs[k2] == m.addrs[k2]);
            match k2 {
                AddrVec::Listen(a2) => {
                    let ids2 = m2.addrs[k2].ids();
                    assert forall|j: int| 0 <= j < ids2.len() implies {
                        let id3 = #[trigger] ids2[j];
                        m2.listeners.dom().contains(id3) && m2.listeners[id3].1 == m2.addrs[
                            k2
                        ].sharing() && m2.listeners[id3].2 == a2
                    } by {
                        assert(m.listeners.dom().contains(ids2[j]));
                    }
                }
                AddrVec::Conn(a2) => {
                    let ids2 = m2.addrs[k2].ids();
                    assert forall|j: int| 0 <= j < ids2.len() implies {
                        let id3 = #[trigger] ids2[j];
                        m2.conns.dom().contains(id3) && m2.conns[id3].1 == m2.addrs[k2].sharing()
                            && m2.conns[id3].2 == a2
                    } by {
                        assert(m.conns.dom().contains(ids2[j]));
                        assert(m.conns[ids2[j]].2 == a2);
                        assert(ids2[j] != id);
                    }
                }
            }
        }
    }
}

/// Whether relocating the listener `id` to `new_addr` must fail: once the
/// identifier's current association is (tentatively) removed, the target
/// address is still occupied, or some occupied address shadows the target.
pub open spec fn listener_update_fails(m: BoundMapModel, id: usize, new_addr: ListenerAddr) -> bool {
    let old_k = AddrVec::Listen(m.listeners[id].2);
    let new_k = AddrVec::Listen(new_addr);
    let sole = m.addrs[old_k].ids().len() == 1;
    ||| (m.addrs.dom().contains(new_k) && !(new_k == old_k && sole))
    ||| (exists|d: AddrVec|
        m.addrs.dom().contains(d) && shadows(d, new_k) && !(d == old_k && sole))
}

/// How successfully relocating the listener `id` to `new_addr` changes the
/// model: the identifier leaves its old occupant set (the entry is deleted
/// if it was the sole occupant), alone occupies the target address, and its
/// record is rewritten to the new address.
pub open spec fn listener_update_rel(
    m: BoundMapModel,
    id: usize,
    new_addr: ListenerAddr,
    m2: BoundMapModel,
) -> bool {
    let rec = m.listeners[id];
    let old_k = AddrVec::Listen(rec.2);
    let new_k = AddrVec::Listen(new_addr);
    let sole = m.addrs[old_k].ids().len() == 1;
    &&& m2.listeners == m.listeners.insert(id, (rec.0, rec.1, new_addr))
    &&& m2.conns == m.conns
    &&& m2.addrs.dom() == (if sole {
        m.addrs.dom().remove(old_k).insert(new_k)
    } else {
        m.addrs.dom().insert(new_k)
    })
    &&& m2.addrs[new_k] == BoundG::Listen(AddrStateG { sharing: rec.1, ids: seq![id] })
    &&& (!sole ==> crate::index::shrunk_by(m.addrs[old_k], id, m2.addrs[old_k]))
    &&& forall|k2: AddrVec| #![auto]
        k2 != old_k && k2 != new_k && m.addrs.dom().contains(k2) ==> m2.addrs[k2] == m.addrs[k2]
}

/// A successful relocation preserves the structural invariant.
pub proof fn lemma_listener_update_inv(
    m: BoundMapModel,
    id: usize,
    new_addr: ListenerAddr,
    m2: BoundMapModel,
)
    requires
        inv(m),
        m.listeners.dom().contains(id),
        !listener_update_fails(m, id, new_addr),
        listener_update_rel(m, id, new_addr, m2),
    ensures
        inv(m2),
{
    let rec = m.listeners[id];
    let old_k = AddrVec::Listen(rec.2);
    let new_k = AddrVec::Listen(new_addr);
    let sole = m.addrs[old_k].ids().len() == 1;
    assert(listener_linked(m, id));
    assert(entry_ok(m, old_k));
    assert forall|id2: usize| #[trigger]
        m2.listeners.dom().contains(id2) implies listener_linked(m2, id2) by {
        if id2 == id {
            assert(m2.addrs.dom().contains(new_k));
            assert(m2.addrs[new_k].ids() == seq![id]);
            assert(m2.addrs[new_k].ids()[0] == id);
        } else {
            assert(m.listeners.dom().contains(id2));
            assert(listener_linked(m, id2));
            let k2 = AddrVec::Listen(m.listeners[id2].2);
            if k2 == new_k {
                assert(m.addrs.dom().contains(new_k));
                assert(new_k == old_k && sole);
                let q = choose|q: int|
                    0 <= q < m.addrs[old_k].ids().len() && m.addrs[old_k].ids()[q] == id2;
                let p = choose|p: int|
                    0 <= p < m.addrs[old_k].ids().len() && m.addrs[old_k].ids()[p] == id;
                assert(p == 0 && q == 0);
                assert(false);
            } else if k2 == old_k {
                if sole {
                    let q = choose|q: int|
                        0 <= q < m.addrs[old_k].ids().len() && m.addrs[old_k].ids()[q] == id2;
                    let p = choose|p: int|
                        0 <= p < m.addrs[old_k].ids().len() && m.addrs[old_k].ids()[p] == id;
                    assert(p == 0 && q == 0);
                    assert(false);
                } else {
                    assert(m2.addrs.dom().contains(old_k));
                    assert(m.addrs[old_k].ids().to_set().contains(id2));
                    assert(m2.addrs[old_k].ids().to_set().contains(id2));
                }
            } else {
                assert(m2.addrs.dom().contains(k2));
                assert(m2.addrs[k2] == m.addrs[k2]);
            }
        }
    }
    assert forall|id2: usize| #[trigger] m2.conns.dom().contains(id2) implies conn_linked(
        m2,
        id2,
    ) by {
        assert(conn_linked(m, id2));
        let k2 = AddrVec::Conn(m.conns[id2].2);
        assert(k2 != old_k && k2 != new_k);
        assert(m2.addrs.dom().contains(k2));
        assert(m2.addrs[k2] == m.addrs[k2]);
    }
    assert forall|k2: AddrVec| #[trigger] m2.addrs.dom().contains(k2) implies entry_ok(
        m2,
        k2,
    ) by {
        if k2 == new_k {
            assert(m2.addrs[new_k].ids() == seq![id]);
            assert(m2.addrs[new_k].ids().len() == 1);
            assert(m2.addrs[new_k].ids().no_duplicates());
            assert forall|j: int| 0 <= j < m2.addrs[new_k].ids().len() implies {
                let id3 = #[trigger] m2.addrs[new_k].ids()[j];
                m2.listeners.dom().contains(id3) && m2.listeners[id3].1 == m2.addrs[
                    new_k
                ].sharing() && m2.listeners[id3].2 == new_addr
            } by {
                assert(m2.addrs[new_k].ids()[j] == id);
            }
        } else if k2 == old_k {
            assert(!sole);
            assert(m.addrs.dom().contains(old_k));
            let ids2 = m2.addrs[old_k].ids();
            assert forall|j: int| 0 <= j < ids2.len() implies {
                let id3 = #[trigger] ids2[j];
                m2.listeners.dom().contains(id3) && m2.listeners[id3].1 == m2.addrs[
                    old_k
                ].sharing() && m2.listeners[id3].2 == rec.2
            } by {
                assert(ids2.to_set().contains(ids2[j]));
                assert(m.addrs[old_k].ids().to_set().contains(ids2[j]));
                assert(ids2[j] != id);
                let p = choose|p: int|
                    0 <= p < m.addrs[old_k].ids().len() && m.addrs[old_k].ids()[p] == ids2[j];
                assert(m.listeners.dom().contains(m.addrs[old_k].ids()[p]));
            }
        } else {
            assert(m.addrs.dom().contains(k2));
            assert(entry_ok(m, k2));
            assert(m2.addrs[k2] == m.addrs[k2]);
            match k2 {
                AddrVec::Listen(a2) => {
                    let ids2 = m2.addrs[k2].ids();
                    assert forall|j: int| 0 <= j < ids2.len() implies {
                        let id3 = #[trigger] ids2[j];
                        m2.listeners.dom().contains(id3) && m2.listeners[id3].1 == m2.addrs[
                            k2
                        ].sharing() && m2.listeners[id3].2 == a2
                    } by {
                        assert(m.listeners.dom().contains(ids2[j]));
                        assert(m.listeners[ids2[j]].2 == a2);
                        assert(ids2[j] != id);
                    }
                }
                AddrVec::Conn(a2) => {
                    let ids2 = m2.addrs[k2].ids();
                    assert forall|j: int| 0 <= j < ids2.len() implies {
                        let id3 = #[trigger] ids2[j];
                        m2.conns.dom().contains(id3) && m2.conns[id3].1 == m2.addrs[k2].sharing()
                            && m2.conns[id3].2 == a2
                    } by {
                        assert(m.conns.dom().contains(ids2[j]));
                    }
                }
            }
        }
    }
}

/// Whether relocating the connection `id` to `new_addr` must fail: once the
/// identifier's current association is (tentatively) removed, the target
/// address is still occupied, or some occupied address shadows the target.
pub open spec fn conn_update_fails(m: BoundMapModel, id: usize, new_addr: ConnAddr) -> bool {
    let old_k = AddrVec::Conn(m.conns[id].2);
    let new_k = AddrVec::Conn(new_addr);
    let sole = m.addrs[old_k].ids().len() == 1;
    ||| (m.addrs.dom().contains(new_k) && !(new_k == old_k && sole))
    ||| (exists|d: AddrVec|
        m.addrs.dom().contains(d) && shadows(d, new_k) && !(d == old_k && sole))
}

/// How successfully relocating the connection `id` to `new_addr` changes
/// the model.
pub open spec fn conn_update_rel(
    m: BoundMapModel,
    id: usize,
    new_addr: ConnAddr,
    m2: BoundMapModel,
) -> bool {
    let rec = m.conns[id];
    let old_k = AddrVec::Conn(rec.2);
    let new_k = AddrVec::Conn(new_addr);
    let sole = m.addrs[old_k].ids().len() == 1;
    &&& m2.listeners == m.listeners
    &&& m2.conns == m.conns.insert(id, (rec.0, rec.1, new_addr))
    &&& m2.addrs.dom() == (if sole {
        m.addrs.dom().remove(old_k).insert(new_k)
    } else {
        m.addrs.dom().insert(new_k)
    })
    &&& m2.addrs[new_k] == BoundG::Conn(AddrStateG { sharing: rec.1, ids: seq![id] })
    &&& (!sole ==> crate::index::shrunk_by(m.addrs[old_k], id, m2.addrs[old_k]))
    &&& forall|k2: AddrVec| #![auto]
        k2 != old_k && k2 != new_k && m.addrs.dom().contains(k2) ==> m2.addrs[k2] == m.addrs[k2]
}

/// A successful relocation preserves the structural invariant.
pub proof fn lemma_conn_update_inv(
    m: BoundMapModel,
    id: usize,
    new_addr: ConnAddr,
    m2: BoundMapModel,
)
    requires
        inv(m),
        m.conns.dom().contains(id),
        !conn_update_fails(m, id, new_addr),
        conn_update_rel(m, id, new_addr, m2),
    ensures
        inv(m2),
{
    let rec = m.conns[id];
    let old_k = AddrVec::Conn(rec.2);
    let new_k = AddrVec::Conn(new_addr);
    let sole = m.addrs[old_k].ids().len() == 1;
    assert(conn_linked(m, id));
    assert(entry_ok(m, old_k));
    assert forall|id2: usize| #[trigger] m2.conns.dom().contains(id2) implies conn_linked(
        m2,
        id2,
    ) by {
        if id2 == id {
            assert(m2.addrs.dom().contains(new_k));
            assert(m2.addrs[new_k].ids() == seq![id]);
            assert(m2.addrs[new_k].ids()[0] == id);
        } else {
            assert(m.conns.dom().contains(id2));
            assert(conn_linked(m, id2));
            let k2 = AddrVec::Conn(m.conns[id2].2);
            if k2 == new_k {
                assert(m.addrs.dom().contains(new_k));
                assert(new_k == old_k && sole);
                let q = choose|q: int|
                    0 <= q < m.addrs[old_k].ids().len() && m.addrs[old_k].ids()[q] == id2;
                let p = choose|p: int|
                    0 <= p < m.addrs[old_k].ids().len() && m.addrs[old_k].ids()[p] == id;
                assert(p == 0 && q == 0);
                assert(false);
            } else if k2 == old_k {
                if sole {
                    let q = choose|q: int|
                        0 <= q < m.addrs[old_k].ids().len() && m.addrs[old_k].ids()[q] == id2;
                    let p = choose|p: int|
                        0 <= p < m.addrs[old_k].ids().len() && m.addrs[old_k].ids()[p] == id;
                    assert(p == 0 && q == 0);
                    assert(false);
                } else {
                    assert(m2.addrs.dom().contains(old_k));
                    assert(m.addrs[old_k].ids().to_set().contains(id2));
                    assert(m2.addrs[old_k].ids().to_set().contains(id2));
                }
            } else {
                assert(m2.addrs.dom().contains(k2));
                assert(m2.addrs[k2] == m.addrs[k2]);
            }
        }
    }
    assert forall|id2: usize| #[trigger]
        m2.listeners.dom().contains(id2) implies listener_linked(m2, id2) by {
        assert(listener_linked(m, id2));
        let k2 = AddrVec::Listen(m.listeners[id2].2);
        assert(k2 != old_k && k2 != new_k);
        assert(m2.addrs.dom().contains(k2));
        assert(m2.addrs[k2] == m.addrs[k2]);
    }
    assert forall|k2: AddrVec| #[trigger] m2.addrs.dom().contains(k2) implies entry_ok(
        m2,
        k2,
    ) by {
        if k2 == new_k {
            assert(m2.addrs[new_k].ids() == seq![id]);
            assert(m2.addrs[new_k].ids().len() == 1);
            assert(m2.addrs[new_k].ids().no_duplicates());
            assert forall|j: int| 0 <= j < m2.addrs[new_k].ids().len() implies {
                let id3 = #[trigger] m2.addrs[new_k].ids()[j];
                m2.conns.dom().contains(id3) && m2.conns[id3].1 == m2.addrs[new_k].sharing()
                    && m2.conns[id3].2 == new_addr
            } by {
                assert(m2.addrs[new_k].ids()[j] == id);
            }
        } else if k2 == old_k {
            assert(!sole);
            assert(m.addrs.dom().contains(old_k));
            let ids2 = m2.addrs[old_k].ids();
            assert forall|j: int| 0 <= j < ids2.len() implies {
                let id3 = #[trigger] ids2[j];
                m2.conns.dom().contains(id3) && m2.conns[id3].1 == m2.addrs[old_k].sharing()
                    && m2.conns[id3].2 == rec.2
            } by {
                assert(ids2.to_set().contains(ids2[j]));
                assert(m.addrs[old_k].ids().to_set().contains(ids2[j]));
                assert(ids2[j] != id);
                let p = choose|p: int|
                    0 <= p < m.addrs[old_k].ids().len() && m.addrs[old_k].ids()[p] == ids2[j];
                assert(m.conns.dom().contains(m.addrs[old_k].ids()[p]));
            }
        } else {
            assert(m.addrs.dom().contains(k2));
            assert(entry_ok(m, k2));
            assert(m2.addrs[k2] == m.addrs[k2]);
            match k2 {
                AddrVec::Listen(a2) => {
                    let ids2 = m2.addrs[k2].ids();
                    assert forall|j: int| 0 <= j < ids2.len() implies {
                        let id3 = #[trigger] ids2[j];
                        m2.listeners.dom().contains(id3) && m2.listeners[id3].1 == m2.addrs[
                            k2
                        ].sharing() && m2.listeners[id3].2 == a2
                    } by {
                        assert(m.listeners.dom().contains(ids2[j]));
                    }
                }
                AddrVec::Conn(a2) => {
                    let ids2 = m2.addrs[k2].ids();
                    assert forall|j: int| 0 <= j < ids2.len() implies {
                        let id3 = #[trigger] ids2[j];
                        m2.conns.dom().contains(id3) && m2.conns[id3].1 == m2.addrs[k2].sharing()
                            && m2.conns[id3].2 == a2
                    } by {
                        assert(m.conns.dom().contains(ids2[j]));
                        assert(m.conns[ids2[j]].2 == a2);
                        assert(ids2[j] != id);
                    }
                }
            }
        }
    }
}

/// Checks whether a socket with sharing state `new_sharing` may be inserted
/// at address `k`, following the decision order of [`insert_decision`].
pub fn check_for_conflicts(map: &SocketMap, k: &AddrVec, new_sharing: char) -> (r: Result<
    (),
    InsertError,
>)
    requires
        map.wf(),
    ensures
        match r {
            Ok(()) => insert_decision(map.as_map(), *k, new_sharing) is None,
            Err(e) => insert_decision(map.as_map(), *k, new_sharing) == Some(e),
        },
{
    let sh = crate::addr::iter_shadows(k);
    let mut i: usize = 0;
    let n = sh.len();
    while i < n
        invariant
            map.wf(),
            n == sh.len(),
            sh@ == shadow_seq(*k),
            i <= n,
            forall|j: int| 0 <= j < i ==> !map.as_map().dom().contains(#[trigger] sh@[j]),
        decreases n - i,
    {
        if map.get(&sh[i]).is_some() {
            return Err(InsertError::ShadowAddrExists);
        }
        i += 1;
    }
    proof {
        if exists|j: int|
            0 <= j < shadow_seq(*k).len() && map.as_map().dom().contains(
                #[trigger] shadow_seq(*k)[j],
            ) {
            let j = choose|j: int|
                0 <= j < shadow_seq(*k).len() && map.as_map().dom().contains(shadow_seq(*k)[j]);
            assert(false);
        }
    }
    match map.get(k) {
        Some(b) => {
            if b.sharing() != new_sharing {
                return Err(InsertError::Exists);
            }
        }
        None => {}
    }
    if map.has_descendants(k) {
        return Err(InsertError::ShadowerExists);
    }
    Ok(())
}

/// A bidirectional map between sockets and their state, keyed in one
/// direction by identifiers and in the other by address vectors.  Listener
/// and connected sockets are kept independently but share the address
/// space; conflicts are detected when new sockets are inserted.
pub struct BoundSocketMap {
    listener_id_to_sock: IdMap<(u64, char, ListenerAddr)>,
    conn_id_to_sock: IdMap<(u64, char, ConnAddr)>,
    addr_to_state: SocketMap,
}

impl View for BoundSocketMap {
    type V = BoundMapModel;

    closed spec fn view(&self) -> BoundMapModel {
        BoundMapModel {
            listeners: self.listener_id_to_sock.spec_map(),
            conns: self.conn_id_to_sock.spec_map(),
            addrs: self.addr_to_state.as_map(),
        }
    }
}

impl BoundSocketMap {
    /// Representation invariant of the address index.
    pub closed spec fn rep_ok(self) -> bool {
        self.addr_to_state.wf()
    }

    /// Well-formedness: the representation is sound and the model satisfies
    /// the structural invariant [`inv`].
    pub open spec fn wf(self) -> bool {
        self.rep_ok() && inv(self@)
    }

    /// Creates an empty map.
    pub fn new() -> (r: Self)
        ensures
            r.wf(),
            r@.listeners == Map::<usize, (u64, char, ListenerAddr)>::empty(),
            r@.conns == Map::<usize, (u64, char, ConnAddr)>::empty(),
            r@.addrs == Map::<AddrVec, BoundG>::empty(),
    {
        BoundSocketMap {
            listener_id_to_sock: IdMap::new(),
            conn_id_to_sock: IdMap::new(),
            addr_to_state: SocketMap::new(),
        }
    }

    /// Tries to insert a listener with the given domain state and sharing
    /// state at `addr`.
    ///
    /// On success the fresh identifier is returned and exactly one record
    /// and one index membership are added.  On failure the error says why
    /// (see [`insert_decision`]), ownership of the supplied state comes back
    /// to the caller, and the map is unchanged.
    pub fn listeners_try_insert(&mut self, addr: ListenerAddr, state: u64, sharing: char) -> (r:
        Result<usize, (InsertError, u64, char)>)
        requires
            old(self).wf(),
        ensures
            final(self).wf(),
            match r {
                Ok(id) => insert_decision(old(self)@.addrs, AddrVec::Listen(addr), sharing)
                    is None && !old(self)@.listeners.dom().contains(id) && final(self)@
                    == listener_insert_effect(old(self)@, addr, state, sharing, id),
                Err((e, st, sh)) => st == state && sh == sharing && insert_decision(
                    old(self)@.addrs,
                    AddrVec::Listen(addr),
                    sharing,
                ) == Some(e) && final(self)@ == old(self)@,
            },
    {
        let k = AddrVec::Listen(addr);
        match check_for_conflicts(&self.addr_to_state, &k, sharing) {
            Err(e) => {
                return Err((e, state, sharing));
            }
            Ok(()) => {}
        }
        let occupied = self.addr_to_state.get(&k).is_some();
        let id = self.listener_id_to_sock.push((state, sharing, addr));
        if occupied {
            proof {
                lemma_fresh_listener_not_occupant(old(self)@, k, id);
            }
            self.addr_to_state.push_id(&k, id);
        } else {
            let st = AddrState::new_addr_state(sharing, id);
            proof {
                assert(seq![id].no_duplicates());
            }
            self.addr_to_state.insert_vacant(k, Bound::Listen(st));
        }
        proof {
            lemma_listener_insert_inv(old(self)@, addr, state, sharing, id);
            assert(final(self)@ == listener_insert_effect(old(self)@, addr, state, sharing, id));
        }
        Ok(id)
    }

    /// Tries to insert a connection with the given domain state and sharing
    /// state at `addr`.
    ///
    /// On success the fresh identifier is returned and exactly one record
    /// and one index membership are added.  On failure the error says why
    /// (see [`insert_decision`]), ownership of the supplied state comes back
    /// to the caller, and the map is unchanged.
    pub fn conns_try_insert(&mut self, addr: ConnAddr, state: u64, sharing: char) -> (r: Result<
        usize,
        (InsertError, u64, char),
    >)
        requires
            old(self).wf(),
        ensures
            final(self).wf(),
            match r {
                Ok(id) => insert_decision(old(self)@.addrs, AddrVec::Conn(addr), sharing) is None
                    && !old(self)@.conns.dom().contains(id) && final(self)@ == conn_insert_effect(
                    old(self)@,
                    addr,
                    state,
                    sharing,
                    id,
                ),
                Err((e, st, sh)) => st == state && sh == sharing && insert_decision(
                    old(self)@.addrs,
                    AddrVec::Conn(addr),
                    sharing,
                ) == Some(e) && final(self)@ == old(self)@,
            },
    {
        let k = AddrVec::Conn(addr);
        match check_for_conflicts(&self.addr_to_state, &k, sharing) {
            Err(e) => {
                return Err((e, state, sharing));
            }
            Ok(()) => {}
        }
        let occupied = self.addr_to_state.get(&k).is_some();
        let id = self.conn_id_to_sock.push((state, sharing, addr));
        if occupied {
            proof {
                lemma_fresh_conn_not_occupant(old(self)@, k, id);
            }
            self.addr_to_state.push_id(&k, id);
        } else {
            let st = AddrState::new_addr_state(sharing, id);
            proof {
                assert(seq![id].no_duplicates());
            }
            self.addr_to_state.insert_vacant(k, Bound::Conn(st));
        }
        proof {
            lemma_conn_insert_inv(old(self)@, addr, state, sharing, id);
            assert(final(self)@ == conn_insert_effect(old(self)@, addr, state, sharing, id));
        }
        Ok(id)
    }

    /// Removes the listener `id` and returns its record, or `None` if `id`
    /// is unknown.  The identifier leaves the occupant set at its address;
    /// if it was the last occupant the entry is deleted entirely.
    pub fn listeners_remove(&mut self, id: usize) -> (r: Option<(u64, char, ListenerAddr)>)
        requires
            old(self).wf(),
        ensures
            final(self).wf(),
            match r {
                Some(rec) => old(self)@.listeners.dom().contains(id) && rec == old(
                    self,
                )@.listeners[id] && listener_remove_rel(old(self)@, id, final(self)@),
                None => !old(self)@.listeners.dom().contains(id) && final(self)@ == old(self)@,
            },
    {
        match self.listener_id_to_sock.remove(id) {
            None => None,
            Some(rec) => {
                let k = AddrVec::Listen(rec.2);
                proof {
                    assert(listener_linked(old(self)@, id));
                }
                let _ = self.addr_to_state.remove_occupant(&k, id);
                proof {
                    assert(listener_remove_rel(old(self)@, id, final(self)@));
                    lemma_listener_remove_inv(old(self)@, id, final(self)@);
                }
                Some(rec)
            }
        }
    }

    /// Removes the connection `id` and returns its record, or `None` if
    /// `id` is unknown.  The identifier leaves the occupant set at its
    /// address; if it was the last occupant the entry is deleted entirely.
    pub fn conns_remove(&mut self, id: usize) -> (r: Option<(u64, char, ConnAddr)>)
        requires
            old(self).wf(),
        ensures
            final(self).wf(),
            match r {
                Some(rec) => old(self)@.conns.dom().contains(id) && rec == old(self)@.conns[id]
                    && conn_remove_rel(old(self)@, id, final(self)@),
                None => !old(self)@.conns.dom().contains(id) && final(self)@ == old(self)@,
            },
    {
        match self.conn_id_to_sock.remove(id) {
            None => None,
            Some(rec) => {
                let k = AddrVec::Conn(rec.2);
                proof {
                    assert(conn_linked(old(self)@, id));
                }
                let _ = self.addr_to_state.remove_occupant(&k, id);
                proof {
                    assert(conn_remove_rel(old(self)@, id, final(self)@));
                    lemma_conn_remove_inv(old(self)@, id, final(self)@);
                }
                Some(rec)
            }
        }
    }

    /// Replaces the domain state of the listener `id` in place, without
    /// touching its sharing state or its address.  Returns whether `id` was
    /// known; an unknown identifier leaves the map unchanged.
    pub fn listeners_set_state(&mut self, id: usize, state: u64) -> (r: bool)
        requires
            old(self).wf(),
        ensures
            final(self).wf(),
            r == old(self)@.listeners.dom().contains(id),
            r ==> final(self)@ == (BoundMapModel {
                listeners: old(self)@.listeners.insert(
                    id,
                    (state, old(self)@.listeners[id].1, old(self)@.listeners[id].2),
                ),
                conns: old(self)@.conns,
                addrs: old(self)@.addrs,
            }),
            !r ==> final(self)@ == old(self)@,
    {
        let rec = match self.listener_id_to_sock.get(id) {
            Some(rec) => *rec,
            None => {
                return false;
            }
        };
        self.listener_id_to_sock.set(id, (state, rec.1, rec.2));
        proof {
            let m = old(self)@;
            let m2 = final(self)@;
            assert forall|id2: usize| #[trigger]
                m2.listeners.dom().contains(id2) implies listener_linked(m2, id2) by {
                assert(m.listeners.dom().contains(id2));
                assert(listener_linked(m, id2));
            }
            assert forall|k2: AddrVec| #[trigger] m2.addrs.dom().contains(k2) implies entry_ok(
                m2,
                k2,
            ) by {
                assert(entry_ok(m, k2));
                match k2 {
                    AddrVec::Listen(a2) => {
                        let ids2 = m2.addrs[k2].ids();
                        assert forall|j: int| 0 <= j < ids2.len() implies {
                            let id3 = #[trigger] ids2[j];
                            m2.listeners.dom().contains(id3) && m2.listeners[id3].1 == m2.addrs[
                                k2
                            ].sharing() && m2.listeners[id3].2 == a2
                        } by {
                            assert(m.listeners.dom().contains(ids2[j]));
                        }
                    }
                    AddrVec::Conn(_) => {}
                }
            }
        }
        true
    }

    /// Replaces the domain state of the connection `id` in place, without
    /// touching its sharing state or its address.  Returns whether `id` was
    /// known; an unknown identifier leaves the map unchanged.
    pub fn conns_set_state(&mut self, id: usize, state: u64) -> (r: bool)
        requires
            old(self).wf(),
        ensures
            final(self).wf(),
            r == old(self)@.conns.dom().contains(id),
            r ==> final(self)@ == (BoundMapModel {
                listeners: old(self)@.listeners,
                conns: old(self)@.conns.insert(
                    id,
                    (state, old(self)@.conns[id].1, old(self)@.conns[id].2),
                ),
                addrs: old(self)@.addrs,
            }),
            !r ==> final(self)@ == old(self)@,
    {
        let rec = match self.conn_id_to_sock.get(id) {
            Some(rec) => *rec,
            None => {
                return false;
            }
        };
        self.conn_id_to_sock.set(id, (state, rec.1, rec.2));
        proof {
            let m = old(self)@;
            let m2 = final(self)@;
            assert forall|id2: usize| #[trigger] m2.conns.dom().contains(id2) implies conn_linked(
                m2,
                id2,
            ) by {
                assert(m.conns.dom().contains(id2));
                assert(conn_linked(m, id2));
            }
            assert forall|k2: AddrVec| #[trigger] m2.addrs.dom().contains(k2) implies entry_ok(
                m2,
                k2,
            ) by {
                assert(entry_ok(m, k2));
                match k2 {
                    AddrVec::Conn(a2) => {
                        let ids2 = m2.addrs[k2].ids();
                        assert forall|j: int| 0 <= j < ids2.len() implies {
                            let id3 = #[trigger] ids2[j];
                            m2.conns.dom().contains(id3) && m2.conns[id3].1 == m2.addrs[
                                k2
                            ].sharing() && m2.conns[id3].2 == a2
                        } by {
                            assert(m.conns.dom().contains(ids2[j]));
                        }
                    }
                    AddrVec::Listen(_) => {}
                }
            }
        }
        true
    }

    /// Relocates the known listener `id` to `new_addr`, all or nothing.
    ///
    /// The move succeeds when, with `id`'s current association set aside,
    /// the target address is vacant and nothing occupied shadows it.
    /// Otherwise `ExistsError` is returned and the map is exactly as it
    /// was.  No conflict is raised against the association being moved
    /// itself.
    pub fn listeners_try_update_addr(&mut self, id: usize, new_addr: ListenerAddr) -> (r: Result<
        (),
        ExistsError,
    >)
        requires
            old(self).wf(),
            old(self)@.listeners.dom().contains(id),
        ensures
            final(self).wf(),
            match r {
                Ok(()) => !listener_update_fails(old(self)@, id, new_addr)
                    && listener_update_rel(old(self)@, id, new_addr, final(self)@),
                Err(e) => listener_update_fails(old(self)@, id, new_addr) && final(self)@ == old(
                    self,
                )@,
            },
    {
        let rec = match self.listener_id_to_sock.get(id) {
            Some(rec) => *rec,
            None => {
                proof {
                    assert(false);
                }
                return Err(ExistsError);
            }
        };
        let old_k = AddrVec::Listen(rec.2);
        let new_k = AddrVec::Listen(new_addr);
        proof {
            assert(listener_linked(old(self)@, id));
        }
        let sole = match self.addr_to_state.get(&old_k) {
            Some(b) => b.occupants() == 1,
            None => {
                proof {
                    assert(false);
                }
                false
            }
        };
        let occupied = self.addr_to_state.get(&new_k).is_some();
        if occupied && !(new_k == old_k && sole) {
            return Err(ExistsError);
        }
        let desc = if sole {
            self.addr_to_state.has_descendant_other_than(&new_k, &old_k)
        } else {
            self.addr_to_state.has_descendants(&new_k)
        };
        if desc {
            proof {
                let m = old(self)@;
                if sole {
                    let d = choose|d: AddrVec|
                        m.addrs.dom().contains(d) && shadows(d, new_k) && d != old_k;
                    assert(m.addrs.dom().contains(d) && shadows(d, new_k) && !(d == old_k
                        && sole));
                } else {
                    let d = choose|d: AddrVec| m.addrs.dom().contains(d) && shadows(d, new_k);
                    assert(m.addrs.dom().contains(d) && shadows(d, new_k) && !(d == old_k
                        && sole));
                }
            }
            return Err(ExistsError);
        }
        proof {
            let m = old(self)@;
            if listener_update_fails(m, id, new_addr) {
                if m.addrs.dom().contains(new_k) && !(new_k == old_k && sole) {
                    assert(false);
                } else {
                    let d = choose|d: AddrVec|
                        m.addrs.dom().contains(d) && shadows(d, new_k) && !(d == old_k && sole);
                    if sole {
                        assert(m.addrs.dom().contains(d) && shadows(d, new_k) && d != old_k);
                    }
                    assert(false);
                }
            }
        }
        let _ = self.addr_to_state.remove_occupant(&old_k, id);
        let st = AddrState::new_addr_state(rec.1, id);
        proof {
            assert(seq![id].no_duplicates());
        }
        self.addr_to_state.insert_vacant(new_k, Bound::Listen(st));
        self.listener_id_to_sock.set(id, (rec.0, rec.1, new_addr));
        proof {
            let m = old(self)@;
            let m2 = final(self)@;
            if sole {
                assert(m2.addrs.dom() =~= m.addrs.dom().remove(old_k).insert(new_k));
            } else {
                assert(m2.addrs.dom() =~= m.addrs.dom().insert(new_k));
            }
            assert(listener_update_rel(m, id, new_addr, m2));
            lemma_listener_update_inv(m, id, new_addr, m2);
        }
        Ok(())
    }

    /// Relocates the known connection `id` to `new_addr`, all or nothing.
    ///
    /// The move succeeds when, with `id`'s current association set aside,
    /// the target address is vacant and nothing occupied shadows it.
    /// Otherwise `ExistsError` is returned and the map is exactly as it
    /// was.  No conflict is raised against the association being moved
    /// itself.
    pub fn conns_try_update_addr(&mut self, id: usize, new_addr: ConnAddr) -> (r: Result<
        (),
        ExistsError,
    >)
        requires
            old(self).wf(),
            old(self)@.conns.dom().contains(id),
        ensures
            final(self).wf(),
            match r {
                Ok(()) => !conn_update_fails(old(self)@, id, new_addr) && conn_update_rel(
                    old(self)@,
                    id,
                    new_addr,
                    final(self)@,
                ),
                Err(e) => conn_update_fails(old(self)@, id, new_addr) && final(self)@ == old(
                    self,
                )@,
            },
    {
        let rec = match self.conn_id_to_sock.get(id) {
            Some(rec) => *rec,
            None => {
                proof {
                    assert(false);
                }
                return Err(ExistsError);
            }
        };
        let old_k = AddrVec::Conn(rec.2);
        let new_k = AddrVec::Conn(new_addr);
        proof {
            assert(conn_linked(old(self)@, id));
        }
        let sole = match self.addr_to_state.get(&old_k) {
            Some(b) => b.occupants() == 1,
            None => {
                proof {
                    assert(false);
                }
                false
            }
        };
        let occupied = self.addr_to_state.get(&new_k).is_some();
        if occupied && !(new_k == old_k && sole) {
            return Err(ExistsError);
        }
        let desc = if sole {
            self.addr_to_state.has_descendant_other_than(&new_k, &old_k)
        } else {
            self.addr_to_state.has_descendants(&new_k)
        };
        if desc {
            proof {
                let m = old(self)@;
                if sole {
                    let d = choose|d: AddrVec|
                        m.addrs.dom().contains(d) && shadows(d, new_k) && d != old_k;
                    assert(m.addrs.dom().contains(d) && shadows(d, new_k) && !(d == old_k
                        && sole));
                } else {
                    let d = choose|d: AddrVec| m.addrs.dom().contains(d) && shadows(d, new_k);
                    assert(m.addrs.dom().contains(d) && shadows(d, new_k) && !(d == old_k
                        && sole));
                }
            }
            return Err(ExistsError);
        }
        proof {
            let m = old(self)@;
            if conn_update_fails(m, id, new_addr) {
                if m.addrs.dom().contains(new_k) && !(new_k == old_k && sole) {
                    assert(false);
                } else {
                    let d = choose|d: AddrVec|
                        m.addrs.dom().contains(d) && shadows(d, new_k) && !(d == old_k && sole);
                    if sole {
                        assert(m.addrs.dom().contains(d) && shadows(d, new_k) && d != old_k);
                    }
                    assert(false);
                }
            }
        }
        let _ = self.addr_to_state.remove_occupant(&old_k, id);
        let st = AddrState::new_addr_state(rec.1, id);
        proof {
            assert(seq![id].no_duplicates());
        }
        self.addr_to_state.insert_vacant(new_k, Bound::Conn(st));
        self.conn_id_to_sock.set(id, (rec.0, rec.1, new_addr));
        proof {
            let m = old(self)@;
            let m2 = final(self)@;
            if sole {
                assert(m2.addrs.dom() =~= m.addrs.dom().remove(old_k).insert(new_k));
            } else {
                assert(m2.addrs.dom() =~= m.addrs.dom().insert(new_k));
            }
            assert(conn_update_rel(m, id, new_addr, m2));
            lemma_conn_update_inv(m, id, new_addr, m2);
        }
        Ok(())
    }

    /// Looks up the occupant state at exactly the listening address `addr`.
    pub fn listeners_get_by_addr(&self, addr: &ListenerAddr) -> (r: Option<&AddrState>)
        requires
            self.wf(),
        ensures
            match r {
                Some(st) => self@.addrs.dom().contains(AddrVec::Listen(*addr)) && self@.addrs[
                    AddrVec::Listen(*addr)
                ] == BoundG::Listen(st@),
                None => !self@.addrs.dom().contains(AddrVec::Listen(*addr)),
            },
    {
        let k = AddrVec::Listen(*addr);
        match self.addr_to_state.get(&k) {
            Some(b) => match b {
                Bound::Listen(st) => Some(st),
                Bound::Conn(_) => {
                    proof {
                        assert(false);
                    }
                    None
                }
            },
            None => None,
        }
    }

    /// Looks up the occupant state at exactly the connected address `addr`.
    pub fn conns_get_by_addr(&self, addr: &ConnAddr) -> (r: Option<&AddrState>)
        requires
            self.wf(),
        ensures
            match r {
                Some(st) => self@.addrs.dom().contains(AddrVec::Conn(*addr)) && self@.addrs[
                    AddrVec::Conn(*addr)
                ] == BoundG::Conn(st@),
                None => !self@.addrs.dom().contains(AddrVec::Conn(*addr)),
            },
    {
        let k = AddrVec::Conn(*addr);
        match self.addr_to_state.get(&k) {
            Some(b) => match b {
                Bound::Conn(st) => Some(st),
                Bound::Listen(_) => {
                    proof {
                        assert(false);
                    }
                    None
                }
            },
            None => None,
        }
    }

    /// The total number of occupants across the addresses that shadow `k`.
    pub closed spec fn shadow_occupancy(self, k: AddrVec) -> nat {
        crate::index::descendant_total(self.addr_to_state.entries_seq(), k)
    }

    /// A point-in-time snapshot of every occupied address vector, across
    /// both socket kinds, each exactly once.
    pub fn iter_addrs(&self) -> (r: Vec<AddrVec>)
        requires
            self.wf(),
        ensures
            r@.no_duplicates(),
            r@.to_set() == self@.addrs.dom(),
            r@.len() == self@.addrs.dom().len(),
    {
        self.addr_to_state.keys()
    }

    /// The total number of occupants across every address vector that
    /// shadows `k`, saturating at `usize::MAX`.  It is zero exactly when
    /// nothing occupied shadows `k`.
    pub fn get_shadower_counts(&self, k: &AddrVec) -> (r: usize)
        requires
            self.wf(),
        ensures
            r as nat == (if self.shadow_occupancy(*k) <= usize::MAX {
                self.shadow_occupancy(*k)
            } else {
                usize::MAX as nat
            }),
            (r == 0) <==> !has_descendant(self@.addrs, *k),
    {
        let c = self.addr_to_state.shadower_count(k);
        proof {
            let es = self.addr_to_state.entries_seq();
            crate::index::lemma_descendant_total_zero(es, *k);
            if c == 0 {
                if has_descendant(self@.addrs, *k) {
                    let d = choose|d: AddrVec|
                        self@.addrs.dom().contains(d) && shadows(d, *k);
                    crate::index::lemma_map_of_dom(es, d);
                    let j = choose|j: int| 0 <= j < es.len() && es[j].0 == d;
                    assert(!shadows(es[j].0, *k));
                    assert(false);
                }
            } else {
                assert(!(forall|i: int| 0 <= i < es.len() ==> !shadows((#[trigger] es[i]).0, *k)));
                let i = choose|i: int| 0 <= i < es.len() && shadows(es[i].0, *k);
                crate::index::lemma_map_of_value(es, i);
                assert(self@.addrs.dom().contains(es[i].0));
            }
        }
        c
    }

    /// Looks up the listener record stored at `id`.
    pub fn listeners_get_by_id(&self, id: usize) -> (r: Option<(u64, char, ListenerAddr)>)
        requires
            self.wf(),
        ensures
            match r {
                Some(rec) => self@.listeners.dom().contains(id) && rec == self@.listeners[id],
                None => !self@.listeners.dom().contains(id),
            },
    {
        match self.listener_id_to_sock.get(id) {
            Some(rec) => Some(*rec),
            None => None,
        }
    }

    /// Looks up the connection record stored at `id`.
    pub fn conns_get_by_id(&self, id: usize) -> (r: Option<(u64, char, ConnAddr)>)
        requires
            self.wf(),
        ensures
            match r {
                Some(rec) => self@.conns.dom().contains(id) && rec == self@.conns[id],
                None => !self@.conns.dom().contains(id),
            },
    {
        match self.conn_id_to_sock.get(id) {
            Some(rec) => Some(*rec),
            None => None,
        }
    }
}

impl Default for BoundSocketMap {
    /// An empty map.
    fn default() -> (r: Self)
        ensures
            r.wf(),
            r@.listeners == Map::<usize, (u64, char, ListenerAddr)>::empty(),
            r@.conns == Map::<usize, (u64, char, ConnAddr)>::empty(),
            r@.addrs == Map::<AddrVec, BoundG>::empty(),
    {
        BoundSocketMap::new()
    }
}

} // verus!
