use vstd::prelude::*;
use crate::ids::{bytes_eq, copy_bytes, views};
use crate::pairs::PairSet;

verus! {

broadcast use vstd::seq_lib::group_seq_properties;

/// What the routing table knows of a peer's reachability.
#[derive(Debug, Clone, Copy, PartialEq, Eq, Structural)]
pub enum Health {
    Unknown,
    Reachable,
    Unroutable,
}

/// The health recorded for `p`: the last entry for it wins, and a peer
/// without an entry is unknown.
pub open spec fn health_in(entries: Seq<(Seq<u8>, Health)>, p: Seq<u8>) -> Health
    decreases entries.len(),
{
    if entries.len() == 0 {
        Health::Unknown
    } else if entries.last().0 == p {
        entries.last().1
    } else {
        health_in(entries.drop_last(), p)
    }
}

proof fn lemma_health_remove(s: Seq<(Seq<u8>, Health)>, k: int, q: Seq<u8>)
    requires
        0 <= k < s.len(),
        s[k].0 != q,
    ensures
        health_in(s.remove(k), q) == health_in(s, q),
    decreases s.len(),
{
    if k == s.len() - 1 {
        assert(s.remove(k) =~= s.drop_last());
    } else {
        assert(s.remove(k).last() == s.last());
        assert(s.remove(k).drop_last() =~= s.drop_last().remove(k));
        lemma_health_remove(s.drop_last(), k, q);
    }
}

proof fn lemma_health_known(s: Seq<(Seq<u8>, Health)>, p: Seq<u8>)
    requires
        health_in(s, p) != Health::Unknown,
    ensures
        exists|i: int| 0 <= i < s.len() && s[i].0 == p,
    decreases s.len(),
{
    if s.last().0 != p {
        lemma_health_known(s.drop_last(), p);
        let i = choose|i: int| 0 <= i < s.drop_last().len() && s.drop_last()[i].0 == p;
        assert(s[i].0 == p);
    } else {
        assert(s[s.len() - 1].0 == p);
    }
}

/// Distributed routing table: peers with their addresses and health.
pub struct RoutingTable {
    entries: Vec<(Vec<u8>, Health)>,
    /// (address, peer) pairs.
    addresses: PairSet,
}

pub struct RoutingView {
    pub entries: Seq<(Seq<u8>, Health)>,
    /// (address, peer) pairs.
    pub addresses: Seq<(Seq<u8>, Seq<u8>)>,
}

impl RoutingView {
    pub open spec fn health(self, p: Seq<u8>) -> Health {
        health_in(self.entries, p)
    }

    pub open spec fn has_address(self, p: Seq<u8>, a: Seq<u8>) -> bool {
        self.addresses.contains((a, p))
    }
}

impl View for RoutingTable {
    type V = RoutingView;

    closed spec fn view(&self) -> RoutingView {
        RoutingView {
            entries: self.entries@.map_values(|e: (Vec<u8>, Health)| (e.0@, e.1)),
            addresses: self.addresses@,
        }
    }
}

impl RoutingTable {
    pub fn new() -> (r: RoutingTable)
        ensures
            forall|p: Seq<u8>| #[trigger] r@.health(p) == Health::Unknown,
            r@.addresses == Seq::<(Seq<u8>, Seq<u8>)>::empty(),
    {
        let r = RoutingTable { entries: Vec::new(), addresses: PairSet::new() };
        assert(r@.entries =~= Seq::<(Seq<u8>, Health)>::empty());
        r
    }

    /// The health recorded for `peer`.
    pub fn health(&self, peer: &Vec<u8>) -> (r: Health)
        ensures
            r == self@.health(peer@),
    {
        let mut i: usize = self.entries.len();
        while i > 0
            invariant
                i <= self.entries@.len(),
                health_in(self@.entries, peer@) == health_in(self@.entries.take(i as int), peer@),
            decreases i,
        {
            assert(self@.entries.take(i as int).drop_last() =~= self@.entries.take(i - 1));
            if bytes_eq(&self.entries[i - 1].0, peer) {
                return self.entries[i - 1].1;
            }
            i = i - 1;
        }
        Health::Unknown
    }

    /// Records `h` as the health of `peer`.
    pub fn set_health(&mut self, peer: &Vec<u8>, h: Health)
        ensures
            final(self)@.addresses == old(self)@.addresses,
            forall|q: Seq<u8>| #[trigger]
                final(self)@.health(q) == if q == peer@ {
                    h
                } else {
                    old(self)@.health(q)
                },
    {
        let mut i: usize = 0;
        while i < self.entries.len()
            invariant
                i <= self.entries@.len(),
                self@.addresses == old(self)@.addresses,
                forall|q: Seq<u8>| q != peer@ ==> #[trigger] self@.health(q) == old(self)@.health(q),
            decreases self.entries@.len() - i,
        {
            if bytes_eq(&self.entries[i].0, peer) {
                let ghost before_view = self@;
                let ghost before = self@.entries;
                self.entries.remove(i);
                assert forall|q: Seq<u8>| q != peer@ implies #[trigger] self@.health(q)
                    == old(self)@.health(q) by {
                    assert(before_view.health(q) == old(self)@.health(q));
                    assert(self@.entries =~= before.remove(i as int));
                    lemma_health_remove(before, i as int, q);
                }
            } else {
                i = i + 1;
            }
        }
        let ghost before_view = self@;
        let ghost before = self@.entries;
        self.entries.push((copy_bytes(peer), h));
        assert(self@.entries =~= before.push((peer@, h)));
        assert(self@.entries.drop_last() =~= before);
        assert forall|q: Seq<u8>| #[trigger]
            self@.health(q) == if q == peer@ {
                h
            } else {
                old(self)@.health(q)
            } by {
            if q != peer@ {
                assert(before_view.health(q) == old(self)@.health(q));
            }
        }
    }

    /// Records `address` for `peer`; the peer's health does not change.
    pub fn add_address(&mut self, peer: &Vec<u8>, address: &Vec<u8>)
        ensures
            final(self)@.entries == old(self)@.entries,
            forall|p: Seq<u8>, a: Seq<u8>| #[trigger]
                final(self)@.has_address(p, a) <==> old(self)@.has_address(p, a) || (p == peer@
                    && a == address@),
    {
        let ghost before = self@.addresses;
        self.addresses.insert(address, peer);
        assert forall|p: Seq<u8>, a: Seq<u8>| #[trigger]
            self@.has_address(p, a) <==> old(self)@.has_address(p, a) || (p == peer@ && a
                == address@) by {
            crate::ids::lemma_push_contains(before, (address@, peer@), (a, p));
        }
    }

    /// Forgets every address of `peer`.
    pub fn remove_addresses(&mut self, peer: &Vec<u8>)
        ensures
            final(self)@.entries == old(self)@.entries,
            forall|p: Seq<u8>, a: Seq<u8>| #[trigger]
                final(self)@.has_address(p, a) <==> old(self)@.has_address(p, a) && p != peer@,
    {
        self.addresses.remove_second(peer);
    }

    /// The peers currently marked reachable (a peer may be listed twice).
    pub fn reachable_peers(&self) -> (r: Vec<Vec<u8>>)
        ensures
            forall|p: Seq<u8>| #[trigger]
                views(r@).contains(p) <==> self@.health(p) == Health::Reachable,
    {
        let mut r: Vec<Vec<u8>> = Vec::new();
        let mut i: usize = 0;
        while i < self.entries.len()
            invariant
                i <= self.entries@.len(),
                forall|p: Seq<u8>| #[trigger]
                    views(r@).contains(p) <==> self@.health(p) == Health::Reachable && exists|
                        j: int,
                    |
                        0 <= j < i && self@.entries[j].0 == p,
            decreases self.entries@.len() - i,
        {
            let ghost prev = r@;
            let ghost pi = self@.entries[i as int].0;
            if self.health(&self.entries[i].0) == Health::Reachable {
                r.push(copy_bytes(&self.entries[i].0));
                assert(views(r@) =~= views(prev).push(pi));
            }
            assert forall|p: Seq<u8>| #[trigger]
                views(r@).contains(p) <==> self@.health(p) == Health::Reachable && exists|
                    j: int,
                |
                    0 <= j < i + 1 && self@.entries[j].0 == p by {
                crate::ids::lemma_push_contains(views(prev), pi, p);
                if p == pi {
                    assert(self@.entries[i as int].0 == p);
                }
            }
            i = i + 1;
        }
        assert forall|p: Seq<u8>| #[trigger]
            views(r@).contains(p) <==> self@.health(p) == Health::Reachable by {
            if self@.health(p) == Health::Reachable {
                lemma_health_known(self@.entries, p);
            }
        }
        r
    }
}

} // verus!
