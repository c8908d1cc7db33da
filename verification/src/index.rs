//! The address-keyed index: maps address vectors to their occupant state.
//!
//! Each occupied address vector owns an [`AddrState`]: the sharing tag that
//! all of its occupants agreed on and the list of their identifiers.  The
//! index also answers shadow queries: whether any address that shadows a
//! candidate is occupied, and how many occupants those shadowing addresses
//! hold.

use vstd::prelude::*;

use crate::addr::{shadow_seq, shadows, AddrVec};

verus! {

/// Signals that a socket cannot join an existing occupant set because its
/// sharing state is incompatible.
#[derive(Clone, Copy, Debug, PartialEq, Eq, Structural)]
pub struct IncompatibleError;

/// The result of removing one occupant from an occupant set.
#[derive(Clone, Copy, Debug, PartialEq, Eq, Structural)]
pub enum RemoveResult {
    /// The occupant was removed and others remain.
    Success,
    /// The occupant was the last one; the owning entry must be deleted.
    IsLast,
}

/// Classifies an address vector for tagging purposes.
#[derive(Clone, Copy, Debug, PartialEq, Eq, Structural)]
pub enum SocketAddrType {
    AnyListener,
    SpecificListener,
    Connected,
}

/// The sharing-classification tag of an occupied address vector: derived
/// from the address shape (role and device presence) and the sharing state,
/// and used for quick compatibility summaries without re-deriving domain
/// semantics.
#[derive(Clone, Copy, Debug, PartialEq, Eq, Structural)]
pub struct SocketAddrTypeTag {
    pub has_device: bool,
    pub addr_type: SocketAddrType,
    pub sharing: char,
}

/// The tag of an entry at address `k` whose occupants share `sharing`.
pub open spec fn tag_of(k: AddrVec, sharing: char) -> SocketAddrTypeTag {
    match k {
        AddrVec::Listen(l) => (SocketAddrTypeTag {
            has_device: l.device is Some,
            addr_type: if l.ip.addr is Some {
                SocketAddrType::SpecificListener
            } else {
                SocketAddrType::AnyListener
            },
            sharing: sharing,
        }),
        AddrVec::Conn(c) => (SocketAddrTypeTag {
            has_device: c.device is Some,
            addr_type: SocketAddrType::Connected,
            sharing: sharing,
        }),
    }
}

/// The occupant set of one address vector: the sharing state its occupants
/// agreed on, and their identifiers.
#[derive(Debug, PartialEq, Eq)]
pub struct AddrState {
    pub sharing: char,
    pub ids: Vec<usize>,
}

/// Mathematical view of an [`AddrState`].
pub ghost struct AddrStateG {
    pub sharing: char,
    pub ids: Seq<usize>,
}

impl View for AddrState {
    type V = AddrStateG;

    open spec fn view(&self) -> AddrStateG {
        AddrStateG { sharing: self.sharing, ids: self.ids@ }
    }
}

/// An occupant set is well formed when it is non-empty and lists each
/// occupant once.
pub open spec fn state_ok(st: AddrStateG) -> bool {
    st.ids.len() > 0 && st.ids.no_duplicates()
}

impl AddrState {
    /// The initial occupant set of a freshly occupied address vector.
    pub fn new_addr_state(sharing: char, id: usize) -> (r: Self)
        ensures
            r@ == (AddrStateG { sharing, ids: seq![id] }),
    {
        let r = AddrState { sharing, ids: vec![id] };
        proof {
            assert(r@.ids =~= seq![id]);
        }
        r
    }

    /// Lets a new socket with sharing state `new_sharing` join this occupant
    /// set.  Succeeds, appending `id`, exactly when the sharing states are
    /// equal; otherwise the set is unchanged.
    pub fn try_get_dest(&mut self, new_sharing: char, id: usize) -> (r: Result<
        (),
        IncompatibleError,
    >)
        ensures
            r is Ok <==> new_sharing == old(self)@.sharing,
            r is Ok ==> final(self)@ == (AddrStateG {
                sharing: old(self)@.sharing,
                ids: old(self)@.ids.push(id),
            }),
            r is Err ==> final(self)@ == old(self)@,
    {
        if new_sharing == self.sharing {
            self.ids.push(id);
            Ok(())
        } else {
            Err(IncompatibleError)
        }
    }

    /// Removes the occupant `id`, which must be present, by swapping it with
    /// the last occupant.  Reports whether the set is now empty, in which
    /// case the owning entry must be deleted.
    pub fn remove_by_id(&mut self, id: usize) -> (r: RemoveResult)
        requires
            state_ok(old(self)@),
            old(self)@.ids.contains(id),
        ensures
            final(self)@.sharing == old(self)@.sharing,
            final(self)@.ids.len() == old(self)@.ids.len() - 1,
            final(self)@.ids.no_duplicates(),
            final(self)@.ids.to_set() == old(self)@.ids.to_set().remove(id),
            r == (if old(self)@.ids.len() == 1 {
                RemoveResult::IsLast
            } else {
                RemoveResult::Success
            }),
    {
        let mut i: usize = 0;
        let n = self.ids.len();
        while i < n
            invariant
                n == self.ids.len(),
                i <= n,
                self@.sharing == old(self)@.sharing,
                self.ids@ == old(self).ids@,
                old(self).ids@.no_duplicates(),
                old(self).ids@.contains(id),
                forall|j: int| 0 <= j < i ==> self.ids@[j] != id,
            decreases n - i,
        {
            if self.ids[i] == id {
                let ghost old_ids = old(self).ids@;
                let _ = self.ids.swap_remove(i);
                proof {
                    lemma_swap_remove_set(old_ids, i as int);
                }
                if self.ids.len() == 0 {
                    return RemoveResult::IsLast;
                } else {
                    return RemoveResult::Success;
                }
            }
            i += 1;
        }
        proof {
            let j = choose|j: int| 0 <= j < old(self).ids@.len() && old(self).ids@[j] == id;
            assert(false);
        }
        RemoveResult::IsLast
    }
}

/// Swap-removing index `i` from a duplicate-free sequence removes exactly
/// the element at `i` from the set of elements.
proof fn lemma_swap_remove_set(s: Seq<usize>, i: int)
    requires
        s.no_duplicates(),
        0 <= i < s.len(),
    ensures
        ({
            let t = s.update(i, s.last()).drop_last();
            t.no_duplicates() && t.to_set() == s.to_set().remove(s[i]) && t.len() == s.len() - 1
        }),
{
    let t = s.update(i, s.last()).drop_last();
    assert forall|p: int, q: int| 0 <= p < q < t.len() implies t[p] != t[q] by {
        assert(s[p] == t[p] || (p == i && t[p] == s.last()));
        assert(s[q] == t[q] || (q == i && t[q] == s.last()));
    }
    assert forall|x: usize| t.to_set().contains(x) implies s.to_set().remove(s[i]).contains(
        x,
    ) by {
        let p = choose|p: int| 0 <= p < t.len() && t[p] == x;
        if p == i {
            assert(s[s.len() - 1] == x);
            assert(x != s[i]);
        } else {
            assert(s[p] == x);
            assert(x != s[i]);
        }
    }
    assert forall|x: usize| s.to_set().remove(s[i]).contains(x) implies t.to_set().contains(
        x,
    ) by {
        let p = choose|p: int| 0 <= p < s.len() && s[p] == x;
        if p == s.len() - 1 {
            assert(i != p);
            assert(t[i] == x);
        } else if p == i {
            assert(x == s[i]);
        } else {
            assert(t[p] == x);
        }
    }
    assert(t.to_set() =~= s.to_set().remove(s[i]));
}

/// The per-address state stored in the index, tagged by socket kind.
#[derive(Debug, PartialEq, Eq)]
pub enum Bound {
    Listen(AddrState),
    Conn(AddrState),
}

/// Mathematical view of a [`Bound`].
pub ghost enum BoundG {
    Listen(AddrStateG),
    Conn(AddrStateG),
}

impl BoundG {
    /// The occupant set, whichever kind this entry holds.
    pub open spec fn state(self) -> AddrStateG {
        match self {
            BoundG::Listen(st) => st,
            BoundG::Conn(st) => st,
        }
    }

    /// The sharing state of this entry's occupants.
    pub open spec fn sharing(self) -> char {
        self.state().sharing
    }

    /// The identifiers of this entry's occupants.
    pub open spec fn ids(self) -> Seq<usize> {
        self.state().ids
    }
}

impl View for Bound {
    type V = BoundG;

    open spec fn view(&self) -> BoundG {
        match self {
            Bound::Listen(st) => BoundG::Listen(st@),
            Bound::Conn(st) => BoundG::Conn(st@),
        }
    }
}

/// An entry's kind must match its key's kind.
pub open spec fn kind_matches(k: AddrVec, b: BoundG) -> bool {
    match k {
        AddrVec::Listen(_) => b is Listen,
        AddrVec::Conn(_) => b is Conn,
    }
}

impl Bound {
    /// The sharing state of this entry's occupants.
    pub fn sharing(&self) -> (r: char)
        ensures
            r == self@.sharing(),
    {
        match self {
            Bound::Listen(st) => st.sharing,
            Bound::Conn(st) => st.sharing,
        }
    }

    /// The number of occupants of this entry.
    pub fn occupants(&self) -> (r: usize)
        ensures
            r == self@.ids().len(),
    {
        match self {
            Bound::Listen(st) => st.ids.len(),
            Bound::Conn(st) => st.ids.len(),
        }
    }

    /// The sharing-classification tag of this entry at its address `k`.
    pub fn tag(&self, k: &AddrVec) -> (r: SocketAddrTypeTag)
        requires
            kind_matches(*k, self@),
        ensures
            r == tag_of(*k, self@.sharing()),
    {
        let (has_device, addr_type) = match k {
            AddrVec::Listen(l) => (
                l.device.is_some(),
                if l.ip.addr.is_some() {
                    SocketAddrType::SpecificListener
                } else {
                    SocketAddrType::AnyListener
                },
            ),
            AddrVec::Conn(c) => (c.device.is_some(), SocketAddrType::Connected),
        };
        let sharing = match self {
            Bound::Listen(st) => st.sharing,
            Bound::Conn(st) => st.sharing,
        };
        SocketAddrTypeTag { has_device, addr_type, sharing }
    }
}

/// The map described by an association sequence: later entries win, though
/// the index keeps its keys distinct so every entry is authoritative.
pub open spec fn map_of(s: Seq<(AddrVec, BoundG)>) -> Map<AddrVec, BoundG>
    decreases s.len(),
{
    if s.len() == 0 {
        Map::empty()
    } else {
        map_of(s.drop_last()).insert(s.last().0, s.last().1)
    }
}

/// All keys of the association sequence are distinct.
pub open spec fn distinct_keys(s: Seq<(AddrVec, BoundG)>) -> bool {
    forall|i: int, j: int| 0 <= i < j < s.len() ==> s[i].0 != s[j].0
}

/// A key is in the map exactly when some entry carries it.
pub proof fn lemma_map_of_dom(s: Seq<(AddrVec, BoundG)>, k: AddrVec)
    ensures
        map_of(s).dom().contains(k) <==> exists|i: int| 0 <= i < s.len() && s[i].0 == k,
    decreases s.len(),
{
    if s.len() > 0 {
        lemma_map_of_dom(s.drop_last(), k);
        if map_of(s).dom().contains(k) {
            if k == s.last().0 {
                assert(s[s.len() - 1].0 == k);
            } else {
                let i = choose|i: int| 0 <= i < s.drop_last().len() && s.drop_last()[i].0 == k;
                assert(s[i].0 == k);
            }
        }
        if exists|i: int| 0 <= i < s.len() && s[i].0 == k {
            let i = choose|i: int| 0 <= i < s.len() && s[i].0 == k;
            if i < s.len() - 1 {
                assert(s.drop_last()[i].0 == k);
            }
        }
    }
}

/// With distinct keys, the entry carrying a key determines its value.
pub proof fn lemma_map_of_value(s: Seq<(AddrVec, BoundG)>, i: int)
    requires
        distinct_keys(s),
        0 <= i < s.len(),
    ensures
        map_of(s).dom().contains(s[i].0),
        map_of(s)[s[i].0] == s[i].1,
    decreases s.len(),
{
    lemma_map_of_dom(s, s[i].0);
    if i < s.len() - 1 {
        assert(distinct_keys(s.drop_last()));
        assert(s.drop_last()[i] == s[i]);
        lemma_map_of_value(s.drop_last(), i);
        assert(s[i].0 != s.last().0);
    }
}

/// With distinct keys, dropping the entry at `i` removes exactly its key.
pub proof fn lemma_map_of_remove(s: Seq<(AddrVec, BoundG)>, i: int)
    requires
        distinct_keys(s),
        0 <= i < s.len(),
    ensures
        map_of(s.remove(i)) == map_of(s).remove(s[i].0),
    decreases s.len(),
{
    if i == s.len() - 1 {
        assert(s.remove(i) =~= s.drop_last());
        lemma_map_of_dom(s.drop_last(), s[i].0);
        assert forall|j: int| 0 <= j < s.drop_last().len() implies s.drop_last()[j].0 != s[i].0 by {
            assert(s[j] == s.drop_last()[j]);
        }
        assert(!map_of(s.drop_last()).dom().contains(s[i].0));
        assert(map_of(s.drop_last()) =~= map_of(s).remove(s[i].0));
    } else {
        let t = s.remove(i);
        assert(t.last() == s.last());
        assert(t.drop_last() =~= s.drop_last().remove(i));
        assert(distinct_keys(s.drop_last()));
        lemma_map_of_remove(s.drop_last(), i);
        assert(map_of(t) == map_of(s.drop_last()).remove(s[i].0).insert(s.last().0, s.last().1));
        assert(s[i].0 != s.last().0);
        assert(map_of(s.drop_last()).remove(s[i].0).insert(s.last().0, s.last().1) =~= map_of(
            s,
        ).remove(s[i].0));
    }
}

/// The map of a distinct-key sequence has one key per entry.
pub proof fn lemma_map_of_len(s: Seq<(AddrVec, BoundG)>)
    requires
        distinct_keys(s),
    ensures
        map_of(s).dom().finite(),
        map_of(s).dom().len() == s.len(),
    decreases s.len(),
{
    if s.len() > 0 {
        assert(distinct_keys(s.drop_last()));
        lemma_map_of_len(s.drop_last());
        lemma_map_of_dom(s.drop_last(), s.last().0);
        assert forall|j: int| 0 <= j < s.drop_last().len() implies s.drop_last()[j].0
            != s.last().0 by {
            assert(s[j] == s.drop_last()[j]);
        }
        assert(!map_of(s.drop_last()).dom().contains(s.last().0));
    }
}

/// The entry `b` with occupant `id` appended.
pub open spec fn with_id(b: BoundG, id: usize) -> BoundG {
    match b {
        BoundG::Listen(st) => BoundG::Listen(
            AddrStateG { sharing: st.sharing, ids: st.ids.push(id) },
        ),
        BoundG::Conn(st) => BoundG::Conn(AddrStateG { sharing: st.sharing, ids: st.ids.push(id) }),
    }
}

/// `small` is `big` with occupant `id` removed: same kind and sharing, one
/// occupant fewer, and the same occupant set except `id`.
pub open spec fn shrunk_by(big: BoundG, id: usize, small: BoundG) -> bool {
    &&& (big is Listen <==> small is Listen)
    &&& small.sharing() == big.sharing()
    &&& small.ids().len() == big.ids().len() - 1
    &&& small.ids().no_duplicates()
    &&& small.ids().to_set() == big.ids().to_set().remove(id)
}

/// Some occupied address in `m` shadows `k`.
pub open spec fn has_descendant(m: Map<AddrVec, BoundG>, k: AddrVec) -> bool {
    exists|d: AddrVec| m.dom().contains(d) && shadows(d, k)
}

/// The `(tag, occupant count)` pairs of the entries that shadow `k`, one
/// pair per such entry, in storage order.
pub open spec fn descendant_pairs(s: Seq<(AddrVec, BoundG)>, k: AddrVec) -> Seq<
    (SocketAddrTypeTag, usize),
>
    decreases s.len(),
{
    if s.len() == 0 {
        seq![]
    } else {
        descendant_pairs(s.drop_last(), k) + (if shadows(s.last().0, k) {
            seq![(tag_of(s.last().0, s.last().1.sharing()), s.last().1.ids().len() as usize)]
        } else {
            seq![]
        })
    }
}

/// The total number of occupants across the entries that shadow `k`.
pub open spec fn descendant_total(s: Seq<(AddrVec, BoundG)>, k: AddrVec) -> nat
    decreases s.len(),
{
    if s.len() == 0 {
        0
    } else {
        descendant_total(s.drop_last(), k) + (if shadows(s.last().0, k) {
            s.last().1.ids().len()
        } else {
            0
        })
    }
}

/// Over well-formed entries, the shadowing-occupant total is zero exactly
/// when no entry shadows `k`.
pub proof fn lemma_descendant_total_zero(s: Seq<(AddrVec, BoundG)>, k: AddrVec)
    requires
        forall|i: int| 0 <= i < s.len() ==> state_ok((#[trigger] s[i]).1.state()),
    ensures
        (descendant_total(s, k) == 0) <==> (forall|i: int|
            0 <= i < s.len() ==> !shadows((#[trigger] s[i]).0, k)),
    decreases s.len(),
{
    if s.len() > 0 {
        assert forall|i: int| 0 <= i < s.drop_last().len() implies state_ok(
            (#[trigger] s.drop_last()[i]).1.state(),
        ) by {
            assert(s.drop_last()[i] == s[i]);
        }
        lemma_descendant_total_zero(s.drop_last(), k);
        if descendant_total(s, k) == 0 {
            assert forall|i: int| 0 <= i < s.len() implies !shadows((#[trigger] s[i]).0, k) by {
                if i < s.len() - 1 {
                    assert(s.drop_last()[i] == s[i]);
                } else {
                    assert(s[i] == s.last());
                    assert(s.last().1.ids().len() > 0);
                }
            }
        } else {
            if forall|i: int| 0 <= i < s.len() ==> !shadows((#[trigger] s[i]).0, k) {
                assert forall|i: int| 0 <= i < s.drop_last().len() implies !shadows(
                    (#[trigger] s.drop_last()[i]).0,
                    k,
                ) by {
                    assert(s.drop_last()[i] == s[i]);
                }
                assert(!shadows(s.last().0, k));
                assert(descendant_total(s, k) == 0);
            }
        }
    }
}

/// The address-keyed index: maps each occupied address vector to its
/// occupant state, with distinct keys.
pub struct SocketMap {
    entries: Vec<(AddrVec, Bound)>,
}

impl SocketMap {
    /// Snapshot of the entries, in storage order: each key with the view of
    /// its state.
    pub closed spec fn entries_seq(self) -> Seq<(AddrVec, BoundG)> {
        Seq::new(self.entries@.len(), |i: int| (self.entries@[i].0, self.entries@[i].1@))
    }

    /// The index as a finite map from occupied address vectors to their
    /// occupant state.
    pub open spec fn as_map(self) -> Map<AddrVec, BoundG> {
        map_of(self.entries_seq())
    }

    /// Well-formedness: keys are distinct and every entry matches its key's
    /// kind and holds a well-formed occupant set.
    pub open spec fn wf(self) -> bool {
        &&& distinct_keys(self.entries_seq())
        &&& forall|i: int|
            0 <= i < self.entries_seq().len() ==> kind_matches(
                #[trigger] self.entries_seq()[i].0,
                self.entries_seq()[i].1,
            ) && state_ok(self.entries_seq()[i].1.state())
    }

    /// Creates an empty index.
    pub fn new() -> (r: Self)
        ensures
            r.wf(),
            r.as_map() == Map::<AddrVec, BoundG>::empty(),
    {
        let r = SocketMap { entries: Vec::new() };
        proof {
            assert(r.entries_seq() =~= Seq::<(AddrVec, BoundG)>::empty());
        }
        r
    }

    /// Finds the storage position of `k`, if occupied.
    fn find(&self, k: &AddrVec) -> (r: Option<usize>)
        ensures
            match r {
                Some(i) => i < self.entries_seq().len() && self.entries_seq()[i as int].0 == *k
                    && self.as_map().dom().contains(*k),
                None => !self.as_map().dom().contains(*k),
            },
    {
        let mut i: usize = 0;
        let n = self.entries.len();
        while i < n
            invariant
                n == self.entries.len(),
                i <= n,
                forall|j: int| 0 <= j < i ==> self.entries_seq()[j].0 != *k,
            decreases n - i,
        {
            if self.entries[i].0 == *k {
                proof {
                    lemma_map_of_dom(self.entries_seq(), *k);
                }
                return Some(i);
            }
            i += 1;
        }
        proof {
            lemma_map_of_dom(self.entries_seq(), *k);
        }
        None
    }

    /// Looks up the occupant state at exactly `k`.
    pub fn get(&self, k: &AddrVec) -> (r: Option<&Bound>)
        requires
            self.wf(),
        ensures
            match r {
                Some(b) => self.as_map().dom().contains(*k) && b@ == self.as_map()[*k],
                None => !self.as_map().dom().contains(*k),
            },
    {
        match self.find(k) {
            Some(i) => {
                proof {
                    lemma_map_of_value(self.entries_seq(), i as int);
                }
                Some(&self.entries[i].1)
            }
            None => None,
        }
    }

    /// Occupies the vacant address `k` with the state `b`.
    pub fn insert_vacant(&mut self, k: AddrVec, b: Bound)
        requires
            old(self).wf(),
            !old(self).as_map().dom().contains(k),
            kind_matches(k, b@),
            state_ok(b@.state()),
        ensures
            final(self).wf(),
            final(self).as_map() == old(self).as_map().insert(k, b@),
    {
        let ghost es = self.entries_seq();
        let ghost bv = b@;
        self.entries.push((k, b));
        proof {
            assert(final(self).entries_seq() =~= es.push((k, bv)));
            lemma_map_of_dom(es, k);
            assert(final(self).entries_seq().drop_last() =~= es);
            assert(final(self).as_map() =~= old(self).as_map().insert(k, bv));
        }
    }

    /// Appends the occupant `id` to the entry at the occupied address `k`.
    pub fn push_id(&mut self, k: &AddrVec, id: usize)
        requires
            old(self).wf(),
            old(self).as_map().dom().contains(*k),
            !old(self).as_map()[*k].ids().contains(id),
        ensures
            final(self).wf(),
            final(self).as_map() == old(self).as_map().insert(
                *k,
                with_id(old(self).as_map()[*k], id),
            ),
    {
        let ghost es = self.entries_seq();
        let i = match self.find(k) {
            Some(i) => i,
            None => {
                proof {
                    assert(false);
                }
                0
            }
        };
        proof {
            lemma_map_of_value(es, i as int);
        }
        let (key, mut b) = self.entries.remove(i);
        match &mut b {
            Bound::Listen(st) => st.ids.push(id),
            Bound::Conn(st) => st.ids.push(id),
        }
        let ghost bv = b@;
        self.entries.push((key, b));
        proof {
            let es_mid = es.remove(i as int);
            assert(bv == with_id(es[i as int].1, id));
            assert(final(self).entries_seq() =~= es_mid.push((*k, bv)));
            assert(distinct_keys(es_mid));
            lemma_map_of_remove(es, i as int);
            lemma_map_of_dom(es_mid, *k);
            assert forall|j: int| 0 <= j < es_mid.len() implies es_mid[j].0 != *k by {
                if j < i {
                    assert(es_mid[j] == es[j]);
                } else {
                    assert(es_mid[j] == es[j + 1]);
                }
            }
            assert(final(self).entries_seq().drop_last() =~= es_mid);
            assert(es[i as int].1.ids().push(id).no_duplicates()) by {
                let w = es[i as int].1.ids().push(id);
                assert forall|p: int, q: int| 0 <= p < q < w.len() implies w[p] != w[q] by {
                    if q == w.len() - 1 {
                        assert(es[i as int].1.ids().contains(w[p]));
                    }
                }
            }
            assert(final(self).as_map() =~= old(self).as_map().insert(
                *k,
                with_id(old(self).as_map()[*k], id),
            ));
        }
    }

    /// Removes and returns the entry at the occupied address `k`.
    pub fn remove_key(&mut self, k: &AddrVec) -> (r: Bound)
        requires
            old(self).wf(),
            old(self).as_map().dom().contains(*k),
        ensures
            final(self).wf(),
            r@ == old(self).as_map()[*k],
            final(self).as_map() == old(self).as_map().remove(*k),
    {
        let ghost es = self.entries_seq();
        let i = match self.find(k) {
            Some(i) => i,
            None => {
                proof {
                    assert(false);
                }
                0
            }
        };
        proof {
            lemma_map_of_value(es, i as int);
            lemma_map_of_remove(es, i as int);
        }
        let (_key, b) = self.entries.remove(i);
        proof {
            assert(final(self).entries_seq() =~= es.remove(i as int));
        }
        b
    }

    /// Removes the occupant `id` from the entry at the occupied address `k`,
    /// deleting the entry entirely when `id` was its last occupant.
    pub fn remove_occupant(&mut self, k: &AddrVec, id: usize) -> (r: RemoveResult)
        requires
            old(self).wf(),
            old(self).as_map().dom().contains(*k),
            old(self).as_map()[*k].ids().contains(id),
        ensures
            final(self).wf(),
            r == (if old(self).as_map()[*k].ids().len() == 1 {
                RemoveResult::IsLast
            } else {
                RemoveResult::Success
            }),
            r is IsLast ==> final(self).as_map() == old(self).as_map().remove(*k),
            r is Success ==> final(self).as_map().dom() == old(self).as_map().dom()
                && shrunk_by(old(self).as_map()[*k], id, final(self).as_map()[*k]) && forall|
                k2: AddrVec,
            |
                k2 != *k && old(self).as_map().dom().contains(k2)
                    ==> final(self).as_map()[k2] == old(self).as_map()[k2],
    {
        let ghost es = self.entries_seq();
        let i = match self.find(k) {
            Some(i) => i,
            None => {
                proof {
                    assert(false);
                }
                0
            }
        };
        proof {
            lemma_map_of_value(es, i as int);
            lemma_map_of_remove(es, i as int);
        }
        let (key, mut b) = self.entries.remove(i);
        let was_last = {
            let res = match &mut b {
                Bound::Listen(st) => st.remove_by_id(id),
                Bound::Conn(st) => st.remove_by_id(id),
            };
            match res {
                RemoveResult::IsLast => true,
                RemoveResult::Success => false,
            }
        };
        proof {
            assert(self.entries_seq() =~= es.remove(i as int));
        }
        if was_last {
            RemoveResult::IsLast
        } else {
            let ghost es_mid = es.remove(i as int);
            let ghost bv = b@;
            self.entries.push((key, b));
            proof {
                assert(final(self).entries_seq() =~= es_mid.push((*k, bv)));
                assert(distinct_keys(es_mid));
                lemma_map_of_dom(es_mid, *k);
                assert forall|j: int| 0 <= j < es_mid.len() implies es_mid[j].0 != *k by {
                    if j < i {
                        assert(es_mid[j] == es[j]);
                    } else {
                        assert(es_mid[j] == es[j + 1]);
                    }
                }
                assert(final(self).entries_seq().drop_last() =~= es_mid);
                assert(final(self).as_map() =~= old(self).as_map().remove(*k).insert(*k, bv));
                assert(shrunk_by(old(self).as_map()[*k], id, bv));
                assert(final(self).as_map().dom() =~= old(self).as_map().dom());
            }
            RemoveResult::Success
        }
    }

    /// Decides whether any occupied address shadows `k`.
    pub fn has_descendants(&self, k: &AddrVec) -> (r: bool)
        requires
            self.wf(),
        ensures
            r == has_descendant(self.as_map(), *k),
    {
        let mut i: usize = 0;
        let n = self.entries.len();
        while i < n
            invariant
                self.wf(),
                n == self.entries.len(),
                i <= n,
                forall|j: int| 0 <= j < i ==> !shadows(#[trigger] self.entries_seq()[j].0, *k),
            decreases n - i,
        {
            let cand = self.entries[i].0;
            if crate::addr::shadows_addr(&cand, k) {
                proof {
                    lemma_map_of_value(self.entries_seq(), i as int);
                }
                return true;
            }
            i += 1;
        }
        proof {
            if has_descendant(self.as_map(), *k) {
                let d = choose|d: AddrVec| self.as_map().dom().contains(d) && shadows(d, *k);
                lemma_map_of_dom(self.entries_seq(), d);
                let j = choose|j: int|
                    0 <= j < self.entries_seq().len() && self.entries_seq()[j].0 == d;
                assert(false);
            }
        }
        false
    }

    /// Decides whether any occupied address other than `excl` shadows `k`.
    pub fn has_descendant_other_than(&self, k: &AddrVec, excl: &AddrVec) -> (r: bool)
        requires
            self.wf(),
        ensures
            r == exists|d: AddrVec|
                self.as_map().dom().contains(d) && shadows(d, *k) && d != *excl,
    {
        let mut i: usize = 0;
        let n = self.entries.len();
        while i < n
            invariant
                self.wf(),
                n == self.entries.len(),
                i <= n,
                forall|j: int|
                    0 <= j < i ==> !shadows(#[trigger] self.entries_seq()[j].0, *k)
                        || self.entries_seq()[j].0 == *excl,
            decreases n - i,
        {
            let cand = self.entries[i].0;
            if !(cand == *excl) && crate::addr::shadows_addr(&cand, k) {
                proof {
                    lemma_map_of_value(self.entries_seq(), i as int);
                }
                return true;
            }
            i += 1;
        }
        proof {
            if exists|d: AddrVec| self.as_map().dom().contains(d) && shadows(d, *k) && d
                != *excl {
                let d = choose|d: AddrVec|
                    self.as_map().dom().contains(d) && shadows(d, *k) && d != *excl;
                lemma_map_of_dom(self.entries_seq(), d);
                let j = choose|j: int|
                    0 <= j < self.entries_seq().len() && self.entries_seq()[j].0 == d;
                assert(false);
            }
        }
        false
    }

    /// Reports, for every occupied address that shadows `k`, its tag and how
    /// many occupants it holds: one pair per shadowing entry.
    pub fn descendant_counts(&self, k: &AddrVec) -> (r: Vec<(SocketAddrTypeTag, usize)>)
        requires
            self.wf(),
        ensures
            r@ == descendant_pairs(self.entries_seq(), *k),
    {
        let mut r: Vec<(SocketAddrTypeTag, usize)> = Vec::new();
        let mut i: usize = 0;
        let n = self.entries.len();
        while i < n
            invariant
                self.wf(),
                n == self.entries.len(),
                i <= n,
                r@ == descendant_pairs(self.entries_seq().take(i as int), *k),
            decreases n - i,
        {
            let cand = self.entries[i].0;
            proof {
                assert(self.entries_seq().take(i + 1).drop_last() =~= self.entries_seq().take(
                    i as int,
                ));
                assert(self.entries_seq().take(i + 1).last() == self.entries_seq()[i as int]);
            }
            if crate::addr::shadows_addr(&cand, k) {
                let tag = self.entries[i].1.tag(&cand);
                let count = match &self.entries[i].1 {
                    Bound::Listen(st) => st.ids.len(),
                    Bound::Conn(st) => st.ids.len(),
                };
                r.push((tag, count));
            }
            i += 1;
        }
        proof {
            assert(self.entries_seq().take(n as int) =~= self.entries_seq());
        }
        r
    }

    /// The total number of occupants across every occupied address that
    /// shadows `k`, saturating at `usize::MAX`.
    pub fn shadower_count(&self, k: &AddrVec) -> (r: usize)
        requires
            self.wf(),
        ensures
            r as nat == (if descendant_total(self.entries_seq(), *k) <= usize::MAX {
                descendant_total(self.entries_seq(), *k)
            } else {
                usize::MAX as nat
            }),
    {
        let mut r: usize = 0;
        let mut i: usize = 0;
        let n = self.entries.len();
        while i < n
            invariant
                self.wf(),
                n == self.entries.len(),
                i <= n,
                r as nat == (if descendant_total(self.entries_seq().take(i as int), *k)
                    <= usize::MAX {
                    descendant_total(self.entries_seq().take(i as int), *k)
                } else {
                    usize::MAX as nat
                }),
            decreases n - i,
        {
            let cand = self.entries[i].0;
            proof {
                assert(self.entries_seq().take(i + 1).drop_last() =~= self.entries_seq().take(
                    i as int,
                ));
                assert(self.entries_seq().take(i + 1).last() == self.entries_seq()[i as int]);
            }
            if crate::addr::shadows_addr(&cand, k) {
                let count = match &self.entries[i].1 {
                    Bound::Listen(st) => st.ids.len(),
                    Bound::Conn(st) => st.ids.len(),
                };
                r = r.saturating_add(count);
            }
            i += 1;
        }
        proof {
            assert(self.entries_seq().take(n as int) =~= self.entries_seq());
        }
        r
    }

    /// All occupied address vectors, in storage order, each exactly once.
    pub fn keys(&self) -> (r: Vec<AddrVec>)
        requires
            self.wf(),
        ensures
            r@.no_duplicates(),
            r@.to_set() == self.as_map().dom(),
            r@.len() == self.as_map().dom().len(),
    {
        let mut r: Vec<AddrVec> = Vec::new();
        let mut i: usize = 0;
        let n = self.entries.len();
        while i < n
            invariant
                self.wf(),
                n == self.entries.len(),
                i <= n,
                r@.len() == i,
                forall|j: int| 0 <= j < i ==> r@[j] == #[trigger] self.entries_seq()[j].0,
            decreases n - i,
        {
            r.push(self.entries[i].0);
            i += 1;
        }
        proof {
            assert forall|p: int, q: int| 0 <= p < q < r@.len() implies r@[p] != r@[q] by {
                assert(r@[p] == self.entries_seq()[p].0);
                assert(r@[q] == self.entries_seq()[q].0);
            }
            assert(r@.no_duplicates());
            lemma_map_of_len(self.entries_seq());
            assert forall|a: AddrVec| r@.to_set().contains(a) implies self.as_map().dom().contains(
                a,
            ) by {
                let j = choose|j: int| 0 <= j < r@.len() && r@[j] == a;
                lemma_map_of_value(self.entries_seq(), j);
            }
            assert forall|a: AddrVec| self.as_map().dom().contains(a) implies r@.to_set().contains(
                a,
            ) by {
                lemma_map_of_dom(self.entries_seq(), a);
                let j = choose|j: int|
                    0 <= j < self.entries_seq().len() && self.entries_seq()[j].0 == a;
                assert(r@[j] == a);
            }
            assert(r@.to_set() =~= self.as_map().dom());
        }
        r
    }
}

} // verus!
