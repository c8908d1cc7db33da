//! A bidirectional map between connection sockets and addresses.
//!
//! Sockets are stored under integer identifiers; each address maps back to
//! the identifier of the socket occupying it.  Addresses are never shared:
//! inserting requires the address to be free.

use vstd::prelude::*;

use crate::addr::ConnAddr;
use crate::id_map::IdMap;

verus! {

/// An entry in a [`ConnSocketMap`].
#[derive(Debug, PartialEq, Eq)]
pub struct ConnSocketEntry<S> {
    pub sock: S,
    pub addr: ConnAddr,
}

/// A bidirectional map between connection sockets and addresses: constant
/// cost from identifier to socket, a lookup from address to identifier.
pub struct ConnSocketMap<S> {
    id_to_sock: IdMap<ConnSocketEntry<S>>,
    addr_to_id: Vec<(ConnAddr, usize)>,
}

impl<S> ConnSocketMap<S> {
    /// The identifier stored for each occupied address.
    pub closed spec fn addr_map(self) -> Map<ConnAddr, usize> {
        Map::new(
            |a: ConnAddr| exists|i: int| 0 <= i < self.addr_to_id@.len() && self.addr_to_id@[i].0 == a,
            |a: ConnAddr|
                {
                    let i = choose|i: int|
                        0 <= i < self.addr_to_id@.len() && self.addr_to_id@[i].0 == a;
                    self.addr_to_id@[i].1
                },
        )
    }

    /// The socket entry stored for each live identifier.
    pub closed spec fn socks(self) -> Map<usize, ConnSocketEntry<S>> {
        self.id_to_sock.spec_map()
    }

    /// Well-formedness: addresses are listed once each, and each listed
    /// identifier is live and stored under that same address.
    pub closed spec fn rep_distinct(self) -> bool {
        forall|i: int, j: int|
            0 <= i < j < self.addr_to_id@.len() ==> self.addr_to_id@[i].0 != self.addr_to_id@[j].0
    }

    /// Well-formedness of the two directions of the map.
    pub open spec fn wf(self) -> bool {
        &&& self.rep_distinct()
        &&& forall|a: ConnAddr| #[trigger]
            self.addr_map().dom().contains(a) ==> self.socks().dom().contains(self.addr_map()[a])
                && self.socks()[self.addr_map()[a]].addr == a
    }

    /// Creates an empty map.
    pub fn new() -> (r: Self)
        ensures
            r.wf(),
            r.addr_map() == Map::<ConnAddr, usize>::empty(),
            r.socks() == Map::<usize, ConnSocketEntry<S>>::empty(),
    {
        let r = ConnSocketMap { id_to_sock: IdMap::new(), addr_to_id: Vec::new() };
        proof {
            assert(r.addr_map() =~= Map::<ConnAddr, usize>::empty());
        }
        r
    }

    /// Stores `sock` under the free address `addr` and returns the fresh
    /// identifier now mapped to it from both directions.
    pub fn insert(&mut self, addr: ConnAddr, sock: S) -> (id: usize)
        requires
            old(self).wf(),
            !old(self).addr_map().dom().contains(addr),
        ensures
            final(self).wf(),
            !old(self).socks().dom().contains(id),
            final(self).socks() == old(self).socks().insert(
                id,
                (ConnSocketEntry { sock, addr }),
            ),
            final(self).addr_map() == old(self).addr_map().insert(addr, id),
    {
        let ghost old_pairs = self.addr_to_id@;
        let id = self.id_to_sock.push(ConnSocketEntry { sock, addr });
        self.addr_to_id.push((addr, id));
        proof {
            let pairs = self.addr_to_id@;
            assert forall|i: int| 0 <= i < old_pairs.len() implies old_pairs[i].0 != addr by {
                if old_pairs[i].0 == addr {
                    assert(old(self).addr_map().dom().contains(addr));
                }
            }
            assert forall|a: ConnAddr| #[trigger]
                final(self).addr_map().dom().contains(a) implies old(self).addr_map().insert(
                addr,
                id,
            ).dom().contains(a) && final(self).addr_map()[a] == old(self).addr_map().insert(
                addr,
                id,
            )[a] by {
                let i = choose|i: int| 0 <= i < pairs.len() && pairs[i].0 == a;
                if a == addr {
                    let j = choose|j: int| 0 <= j < pairs.len() && pairs[j].0 == addr;
                    assert(j == pairs.len() - 1);
                    assert(final(self).addr_map()[a] == id);
                } else {
                    assert(i < old_pairs.len());
                    assert(old_pairs[i].0 == a);
                    assert(old(self).addr_map().dom().contains(a));
                    let j = choose|j: int| 0 <= j < pairs.len() && pairs[j].0 == a;
                    let j0 = choose|j: int| 0 <= j < old_pairs.len() && old_pairs[j].0 == a;
                    assert(j < old_pairs.len());
                    assert(pairs[j] == old_pairs[j]);
                    assert(j == j0 || old_pairs[j].0 != old_pairs[j0].0);
                    assert(final(self).addr_map()[a] == old(self).addr_map()[a]);
                }
            }
            assert forall|a: ConnAddr| old(self).addr_map().insert(addr, id).dom().contains(
                a,
            ) implies final(self).addr_map().dom().contains(a) by {
                if a == addr {
                    assert(pairs[pairs.len() - 1].0 == addr);
                } else {
                    let i = choose|i: int| 0 <= i < old_pairs.len() && old_pairs[i].0 == a;
                    assert(pairs[i].0 == a);
                }
            }
            assert(final(self).addr_map() =~= old(self).addr_map().insert(addr, id));
        }
        id
    }

    /// Looks up the identifier bound at `addr`.
    pub fn get_id_by_addr(&self, addr: &ConnAddr) -> (r: Option<usize>)
        requires
            self.wf(),
        ensures
            match r {
                Some(id) => self.addr_map().dom().contains(*addr) && id == self.addr_map()[*addr],
                None => !self.addr_map().dom().contains(*addr),
            },
    {
        let mut i: usize = 0;
        let n = self.addr_to_id.len();
        while i < n
            invariant
                self.wf(),
                n == self.addr_to_id@.len(),
                i <= n,
                forall|j: int| 0 <= j < i ==> (#[trigger] self.addr_to_id@[j]).0 != *addr,
            decreases n - i,
        {
            if self.addr_to_id[i].0 == *addr {
                proof {
                    let j = choose|j: int|
                        0 <= j < self.addr_to_id@.len() && self.addr_to_id@[j].0 == *addr;
                    assert(j == i || self.addr_to_id@[j].0 != self.addr_to_id@[i as int].0);
                }
                return Some(self.addr_to_id[i].1);
            }
            i += 1;
        }
        None
    }

    /// Looks up the socket entry stored at `id`.
    pub fn get_sock_by_id(&self, id: usize) -> (r: Option<&ConnSocketEntry<S>>)
        requires
            self.wf(),
        ensures
            match r {
                Some(e) => self.socks().dom().contains(id) && *e == self.socks()[id],
                None => !self.socks().dom().contains(id),
            },
    {
        self.id_to_sock.get(id)
    }
}

impl<S> Default for ConnSocketMap<S> {
    /// An empty map.
    fn default() -> (r: Self)
        ensures
            r.wf(),
            r.addr_map() == Map::<ConnAddr, usize>::empty(),
            r.socks() == Map::<usize, ConnSocketEntry<S>>::empty(),
    {
        ConnSocketMap::new()
    }
}

} // verus!
