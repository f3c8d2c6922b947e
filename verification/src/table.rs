//! The table of a node's connections, ordered by position on the ring.

use crate::ascending::{lemma_listing, lemma_lists_len, lemma_lists_unique, listing};
use crate::error::RingProtoError;
use crate::location::{arc, lemma_at_key, lemma_key, Distance, Location, FULL_TURN, HALF_TURN};
use crate::median::{as_ints, ascending_order, median, median_of};
use std::collections::BTreeMap;
use vstd::prelude::*;
use vstd::seq_lib::group_to_multiset_ensures;
use vstd::std_specs::btree::increasing_seq;
use vstd::std_specs::cmp::OrdSpec;
use vstd::std_specs::iter::IteratorSpec;

verus! {

/// With fewer connections than this a node admits every new peer.
pub const MIN_CONNECTIONS: usize = 10;

/// With this many connections a node admits no further peer.
pub const MAX_CONNECTIONS: usize = 20;

/// The connections of a node: at most one peer at each position, kept in
/// the order of the positions.
#[derive(Debug)]
pub struct ConnectionTable<P> {
    peers: BTreeMap<u64, P>,
}

impl<P> View for ConnectionTable<P> {
    type V = Map<Location, P>;

    /// The peer connected at each position that has one.
    closed spec fn view(&self) -> Map<Location, P> {
        Map::new(
            |at: Location| self.peers@.contains_key(at.key()),
            |at: Location| self.peers@[at.key()],
        )
    }
}

impl<P> ConnectionTable<P> {
    /// Every position in the table lies on the ring.
    #[verifier::type_invariant]
    pub open spec fn on_ring(&self) -> bool {
        forall|at: Location| #[trigger] self@.contains_key(at) ==> at.on_ring()
    }

    /// The connections by ascending position: all of them, each once.
    /// [`lemma_entries`] and [`lemma_entries_unique`] say so.
    pub closed spec fn entries(&self) -> Seq<(Location, P)> {
        listing(self.peers@).map_values(|e: (u64, P)| (Location::at(e.0 as int), e.1))
    }

    /// The number of connections.
    pub open spec fn count(&self) -> nat {
        self.entries().len()
    }

    /// The peers connected, by ascending position of the connection.
    pub open spec fn peers(&self) -> Seq<P> {
        self.entries().map_values(|e: (Location, P)| e.1)
    }

    /// The distances from `to` to the connections, by ascending position
    /// of the connection.
    pub open spec fn distances_to(&self, to: Location) -> Seq<int> {
        self.entries().map_values(|e: (Location, P)| arc(e.0@, to@))
    }

    /// Whether a node at `own` with these connections admits a peer at
    /// `candidate`. It never admits a peer at its own position or at the
    /// position of a connection. Of the others it admits each one while it
    /// has fewer than [`MIN_CONNECTIONS`] connections and none once it has
    /// [`MAX_CONNECTIONS`]; in between it admits those that are nearer to
    /// it than the median of its connections.
    pub open spec fn admits(&self, own: Location, candidate: Location) -> bool {
        if candidate == own || self@.contains_key(candidate) {
            false
        } else if self.count() < MIN_CONNECTIONS {
            true
        } else if self.count() >= MAX_CONNECTIONS {
            false
        } else {
            arc(own@, candidate@) < median(self.distances_to(own))
        }
    }

    /// Whether `out` holds, for each connection by ascending position, its
    /// distance from `to` and the peer connected there.
    pub open spec fn lists_by_distance(&self, to: Location, out: Seq<(Distance, P)>) -> bool {
        &&& out.len() == self.count()
        &&& forall|i: int|
            0 <= i < out.len() ==> (#[trigger] out[i]).0@ == arc(self.entries()[i].0@, to@)
                && out[i].1 == self.entries()[i].1
    }

    /// Whether `r` is the median of the distances from `reference` to the
    /// connections, or the failure to find one where there is no connection.
    pub open spec fn has_median(
        &self,
        reference: Location,
        r: Result<Distance, RingProtoError>,
    ) -> bool {
        if self.count() == 0 {
            r == Err::<Distance, RingProtoError>(RingProtoError::EmptyRing)
        } else {
            r is Ok && r->Ok_0@ == median(self.distances_to(reference))
        }
    }

    /// Whether `peer` is the first peer, by ascending position of its
    /// connection, of which `filter_fn` held when it was asked of each in
    /// turn, or nothing where it held of none.
    pub open spec fn picks<F: Fn(&P) -> bool>(&self, filter_fn: F, peer: Option<P>) -> bool {
        match peer {
            Some(found) => exists|i: int| #[trigger]
                first_match(self.peers(), filter_fn, i) && self.peers()[i] == found,
            None => no_match(self.peers(), filter_fn, self.count() as int),
        }
    }
}

impl<P: Copy> Clone for ConnectionTable<P> {
    /// A table with the same connections.
    fn clone(&self) -> (copy: ConnectionTable<P>)
        ensures
            copy@ == self@,
            copy.entries() == self.entries(),
    {
        let peers = self.peers.clone();
        proof {
            use_type_invariant(self);
            assert forall|at: Location| #[trigger]
                peers@.contains_key(at.key()) implies at.on_ring() by {
                assert(self@.contains_key(at));
            }
        }
        ConnectionTable { peers }
    }
}

impl<P: Copy> ConnectionTable<P> {
    /// A table without connections.
    pub fn new() -> (table: ConnectionTable<P>)
        ensures
            table@ == Map::<Location, P>::empty(),
            table.count() == 0,
    {
        let table = ConnectionTable { peers: BTreeMap::new() };
        proof {
            lemma_count(table);
        }
        table
    }

    /// The number of connections.
    pub fn len(&self) -> (n: usize)
        ensures
            n == self.count(),
    {
        proof {
            lemma_count(*self);
        }
        self.peers.len()
    }

    /// Whether a peer is connected at `location`.
    pub fn contains_key(&self, location: &Location) -> (found: bool)
        ensures
            found == self@.contains_key(*location),
    {
        let key = location.units();
        proof {
            lemma_key(*location);
        }
        self.peers.contains_key(&key)
    }

    /// The peer connected at `location`, if there is one.
    pub fn get(&self, location: &Location) -> (peer: Option<P>)
        ensures
            peer == if self@.contains_key(*location) {
                Some(self@[*location])
            } else {
                None
            },
    {
        let key = location.units();
        proof {
            lemma_key(*location);
        }
        match self.peers.get(&key) {
            Some(peer) => Some(*peer),
            None => None,
        }
    }

    /// Connects `peer` at `location`, in place of the peer that was
    /// connected there, if there was one; that peer is returned.
    pub fn insert(&mut self, location: Location, peer: P) -> (replaced: Option<P>)
        ensures
            final(self)@ == old(self)@.insert(location, peer),
            replaced == if old(self)@.contains_key(location) {
                Some(old(self)@[location])
            } else {
                None
            },
            final(self).count() == if replaced is Some {
                old(self).count()
            } else {
                old(self).count() + 1
            },
    {
        let key = location.units();
        proof {
            use_type_invariant(&*self);
            lemma_key(location);
        }
        // The map leaves the table while it changes, so that the table holds
        // positions on the ring at every step.
        let mut peers: BTreeMap<u64, P> = BTreeMap::new();
        core::mem::swap(&mut self.peers, &mut peers);
        let replaced = peers.insert(key, peer);
        proof {
            assert forall|at: Location| #[trigger]
                peers@.contains_key(at.key()) implies at.on_ring() by {
                lemma_key(at);
                if at != location {
                    assert(old(self)@.contains_key(at));
                }
            }
        }
        core::mem::swap(&mut self.peers, &mut peers);
        proof {
            assert forall|at: Location| (#[trigger] at.key() == key) == (at == location) by {
                lemma_key(at);
            }
            assert(self@ =~= old(self)@.insert(location, peer));
            lemma_count(*old(self));
            lemma_count(*self);
        }
        replaced
    }

    /// Drops the connection at `location`, if there is one, and returns
    /// the peer that was connected there.
    pub fn remove(&mut self, location: &Location) -> (removed: Option<P>)
        ensures
            final(self)@ == old(self)@.remove(*location),
            removed == if old(self)@.contains_key(*location) {
                Some(old(self)@[*location])
            } else {
                None
            },
            final(self).count() == if removed is Some {
                old(self).count() - 1
            } else {
                old(self).count() as int
            },
    {
        let key = location.units();
        proof {
            use_type_invariant(&*self);
            lemma_key(*location);
        }
        let mut peers: BTreeMap<u64, P> = BTreeMap::new();
        core::mem::swap(&mut self.peers, &mut peers);
        let removed = peers.remove(&key);
        proof {
            assert forall|at: Location| #[trigger]
                peers@.contains_key(at.key()) implies at.on_ring() by {
                assert(old(self)@.contains_key(at));
            }
        }
        core::mem::swap(&mut self.peers, &mut peers);
        proof {
            assert forall|at: Location| (#[trigger] at.key() == key) == (at == *location) by {
                lemma_key(at);
            }
            assert(self@ =~= old(self)@.remove(*location));
            lemma_count(*old(self));
            lemma_count(*self);
        }
        removed
    }

    /// The distance from `to` to each connection, with the peer connected
    /// there, by ascending position of the connection.
    pub fn connections_by_distance(&self, to: &Location) -> (out: Vec<(Distance, P)>)
        ensures
            self.lists_by_distance(*to, out@),
    {
        let entries = self.listed();
        let mut out: Vec<(Distance, P)> = Vec::new();
        let mut i: usize = 0;
        while i < entries.len()
            invariant
                i <= entries.len(),
                out.len() == i,
                forall|j: int|
                    0 <= j < i ==> (#[trigger] out[j]).0@ == arc(entries[j].0@, to@) && out[j].1
                        == entries[j].1,
            decreases entries.len() - i,
        {
            out.push((entries[i].0.distance(to), entries[i].1));
            i += 1;
        }
        out
    }

    /// The median of the distances from `reference` to the connections:
    /// the lesser of the two in the middle where their number is even.
    /// There is none where there is no connection.
    pub fn median_distance_to(&self, reference: &Location) -> (r: Result<Distance, RingProtoError>)
        ensures
            self.has_median(*reference, r),
            r is Err <==> self.count() == 0,
            r is Ok ==> 0 <= r->Ok_0@ <= HALF_TURN,
    {
        let by_distance = self.connections_by_distance(reference);
        let mut distances: Vec<u64> = Vec::new();
        let mut i: usize = 0;
        while i < by_distance.len()
            invariant
                i <= by_distance.len(),
                distances.len() == i,
                forall|j: int| 0 <= j < i ==> #[trigger] distances[j] == by_distance[j].0@,
            decreases by_distance.len() - i,
        {
            distances.push(by_distance[i].0.units());
            i += 1;
        }
        assert(as_ints(distances@) =~= self.distances_to(*reference));
        match median_of(distances) {
            Some(middle) => {
                proof {
                    lemma_median_is_a_distance(self.distances_to(*reference));
                }
                Ok(Location::from_units(middle))
            },
            None => Err(RingProtoError::EmptyRing),
        }
    }

    /// Whether a node at `own` with these connections admits a peer at
    /// `candidate`.
    pub fn should_accept(&self, own: &Location, candidate: &Location) -> (accept: bool)
        ensures
            accept == self.admits(*own, *candidate),
            *candidate == *own || self@.contains_key(*candidate) ==> !accept,
            self.count() >= MAX_CONNECTIONS ==> !accept,
            self.count() < MIN_CONNECTIONS && *candidate != *own && !self@.contains_key(*candidate)
                ==> accept,
    {
        let count = self.len();
        if *candidate == *own || self.contains_key(candidate) {
            false
        } else if count < MIN_CONNECTIONS {
            true
        } else if count >= MAX_CONNECTIONS {
            false
        } else {
            match self.median_distance_to(own) {
                Ok(median) => own.distance(candidate).units() < median.units(),
                Err(_) => false,
            }
        }
    }

    /// The first peer, by ascending position of its connection, of which
    /// `filter_fn` holds, if there is one. The peers before it are asked
    /// in turn, those after it are not asked.
    pub fn random_peer<F: Fn(&P) -> bool>(&self, filter_fn: F) -> (peer: Option<P>)
        requires
            forall|i: int|
                0 <= i < self.count() ==> call_requires(filter_fn, (&#[trigger] self.peers()[i],)),
        ensures
            self.picks(filter_fn, peer),
    {
        let entries = self.listed();
        let mut i: usize = 0;
        while i < entries.len()
            invariant
                i <= entries.len(),
                entries@ == self.entries(),
                no_match(self.peers(), filter_fn, i as int),
                forall|j: int|
                    0 <= j < self.count() ==> call_requires(
                        filter_fn,
                        (&#[trigger] self.peers()[j],),
                    ),
            decreases entries.len() - i,
        {
            assert(self.peers()[i as int] == entries[i as int].1);
            if filter_fn(&entries[i].1) {
                assert(first_match(self.peers(), filter_fn, i as int));
                return Some(entries[i].1);
            }
            i += 1;
        }
        None
    }

    /// The connections by ascending position, copied out of the map.
    fn listed(&self) -> (out: Vec<(Location, P)>)
        ensures
            out@ == self.entries(),
    {
        proof {
            use_type_invariant(self);
        }
        let iter = self.peers.iter();
        let ghost all = iter.remaining().map_values(|kv: (&u64, &P)| (*kv.0, *kv.1));
        proof {
            let keys = iter.remaining().map_values(|kv: (&u64, &P)| *kv.0);
            lemma_increasing_keys(keys);
            assert forall|i: int, j: int| 0 <= i < j < all.len() implies (#[trigger] all[i]).0
                < (#[trigger] all[j]).0 by {
                assert(keys[i] < keys[j]);
            }
            assert forall|k: u64| #[trigger] self.peers@.contains_key(k) implies exists|i: int|
                0 <= i < all.len() && (#[trigger] all[i]).0 == k by {
                let i = iter.remaining().index_of((&k, &self.peers@[k]));
                assert(all[i].0 == k);
            }
            lemma_listing(self.peers@);
            lemma_lists_unique(all, listing(self.peers@), self.peers@);
            assert forall|i: int| 0 <= i < all.len() implies (#[trigger] all[i]).0 <= FULL_TURN by {
                lemma_at_key(all[i].0);
                assert(self@.contains_key(Location::at(all[i].0 as int)));
            }
        }
        let mut out: Vec<(Location, P)> = Vec::new();
        for kv in it: iter
            invariant
                out.len() == it.index(),
                it.seq().len() == all.len(),
                forall|i: int|
                    0 <= i < all.len() ==> all[i] == (*(#[trigger] it.seq()[i]).0, *it.seq()[i].1),
                forall|i: int| 0 <= i < all.len() ==> (#[trigger] all[i]).0 <= FULL_TURN,
                forall|i: int|
                    0 <= i < out.len() ==> #[trigger] out[i] == (
                        Location::at(all[i].0 as int),
                        all[i].1,
                    ),
        {
            let (k, v) = kv;
            out.push((Location::from_units(*k), *v));
        }
        assert(out@ =~= self.entries());
        out
    }
}

/// A table has as many connections as its map has keys.
proof fn lemma_count<P>(table: ConnectionTable<P>)
    ensures
        table.count() == table.peers@.dom().len(),
{
    lemma_listing(table.peers@);
    lemma_lists_len(listing(table.peers@), table.peers@);
}

/// `s` lists the connections of `m`, each once, by ascending position.
pub open spec fn lists_by_position<P>(s: Seq<(Location, P)>, m: Map<Location, P>) -> bool {
    &&& forall|i: int, j: int|
        0 <= i < j < s.len() ==> (#[trigger] s[i]).0@ < (#[trigger] s[j]).0@
    &&& forall|i: int| 0 <= i < s.len() ==> m.contains_pair((#[trigger] s[i]).0, s[i].1)
    &&& forall|at: Location| #[trigger]
        m.contains_key(at) ==> exists|i: int| 0 <= i < s.len() && (#[trigger] s[i]).0 == at
}

/// The entries of a table list its connections by ascending position.
pub proof fn lemma_entries<P>(table: ConnectionTable<P>)
    ensures
        lists_by_position(table.entries(), table@),
{
    let by_key = listing(table.peers@);
    let s = table.entries();
    lemma_listing(table.peers@);
    assert forall|i: int| 0 <= i < s.len() implies (#[trigger] s[i]).0.key() == by_key[i].0
        && s[i].0@ == by_key[i].0 && s[i].1 == by_key[i].1 by {
        lemma_at_key(by_key[i].0);
    }
    assert forall|at: Location| #[trigger] table@.contains_key(at) implies exists|i: int|
        0 <= i < s.len() && (#[trigger] s[i]).0 == at by {
        let i = choose|i: int| 0 <= i < by_key.len() && (#[trigger] by_key[i]).0 == at.key();
        lemma_key(at);
        assert(s[i].0 == at);
    }
}

/// A table has no other listing of its connections by ascending position
/// than its entries.
pub proof fn lemma_entries_unique<P>(table: ConnectionTable<P>, s: Seq<(Location, P)>)
    requires
        lists_by_position(s, table@),
    ensures
        s == table.entries(),
{
    let by_key = s.map_values(|e: (Location, P)| (e.0.key(), e.1));
    assert forall|i: int| 0 <= i < s.len() implies (#[trigger] by_key[i]).0 == s[i].0@
        && Location::at(by_key[i].0 as int) == s[i].0 by {
        lemma_key(s[i].0);
    }
    assert forall|k: u64| #[trigger] table.peers@.contains_key(k) implies exists|i: int|
        0 <= i < by_key.len() && (#[trigger] by_key[i]).0 == k by {
        lemma_at_key(k);
        let at = Location::at(k as int);
        assert(table@.contains_key(at));
        let i = choose|i: int| 0 <= i < s.len() && (#[trigger] s[i]).0 == at;
        assert(by_key[i].0 == k);
    }
    lemma_listing(table.peers@);
    lemma_lists_unique(by_key, listing(table.peers@), table.peers@);
    assert(s =~= table.entries());
}

/// `filter_fn` fails of each of the first `n` of `peers`.
pub open spec fn no_match<P, F: Fn(&P) -> bool>(peers: Seq<P>, filter_fn: F, n: int) -> bool {
    forall|j: int|
        0 <= j < n && j < peers.len() ==> call_ensures(filter_fn, (&#[trigger] peers[j],), false)
}

/// `filter_fn` holds of the peer at `i` in `peers` and fails of each
/// before it.
pub open spec fn first_match<P, F: Fn(&P) -> bool>(peers: Seq<P>, filter_fn: F, i: int) -> bool {
    &&& 0 <= i < peers.len()
    &&& call_ensures(filter_fn, (&peers[i],), true)
    &&& no_match(peers, filter_fn, i)
}

/// `peer` is the first of `peers` that is `wanted`, or nothing where none
/// of them is.
pub open spec fn first_wanted<P>(
    peers: Seq<P>,
    wanted: spec_fn(P) -> bool,
    peer: Option<P>,
) -> bool {
    match peer {
        Some(found) => exists|i: int|
            0 <= i < peers.len() && #[trigger] peers[i] == found && wanted(found) && forall|j: int|
                0 <= j < i ==> !wanted(#[trigger] peers[j]),
        None => forall|j: int| 0 <= j < peers.len() ==> !wanted(#[trigger] peers[j]),
    }
}

/// Where `filter_fn` answers as `wanted` says, the peer picked is the
/// first wanted peer by ascending position of its connection: nothing
/// where no peer is wanted, the one wanted peer where there is one, and
/// the earliest where there are several.
pub proof fn lemma_pick_is_first_wanted<P, F: Fn(&P) -> bool>(
    table: ConnectionTable<P>,
    filter_fn: F,
    wanted: spec_fn(P) -> bool,
    peer: Option<P>,
)
    requires
        forall|p: P, answer: bool| #[trigger]
            call_ensures(filter_fn, (&p,), answer) ==> answer == wanted(p),
        table.picks(filter_fn, peer),
    ensures
        first_wanted(table.peers(), wanted, peer),
        peer is None <==> forall|j: int|
            0 <= j < table.count() ==> !wanted(#[trigger] table.peers()[j]),
{
    let peers = table.peers();
    if let Some(found) = peer {
        let i = choose|i: int| #[trigger] first_match(peers, filter_fn, i) && peers[i] == found;
        assert(wanted(peers[i]));
    }
}

/// The median of distances is one of them, so at most half a turn.
proof fn lemma_median_is_a_distance(distances: Seq<int>)
    requires
        distances.len() > 0,
        forall|i: int| 0 <= i < distances.len() ==> 0 <= #[trigger] distances[i] <= HALF_TURN,
    ensures
        0 <= median(distances) <= HALF_TURN,
{
    broadcast use group_to_multiset_ensures;

    let sorted = distances.sort_by(ascending_order());
    distances.lemma_sort_by_ensures(ascending_order());
    assert(distances.len() == distances.to_multiset().len());
    assert(sorted.contains(sorted[(distances.len() - 1) / 2]));
}

/// Keys in the order that a `BTreeMap` keeps them grow from each to the next.
proof fn lemma_increasing_keys(keys: Seq<u64>)
    requires
        increasing_seq(keys),
    ensures
        forall|i: int, j: int| 0 <= i < j < keys.len() ==> keys[i] < keys[j],
{
    assert forall|i: int, j: int| 0 <= i < j < keys.len() implies keys[i] < keys[j] by {
        assert(keys[i].cmp_spec(&keys[j]) is Less);
    }
}

} // verus!
