//! A node's view of the ring: its connections, shared between readers and
//! one writer, and the thresholds that steer its routing.
//!
//! The queries of a [`Ring`] each copy the connections under shared access
//! and answer from the copy, so each answer is that of one state of the
//! table. The connection manager writes through
//! [`Ring::connections_by_location`]. Nothing ties a query to a later
//! write: a caller that admits a peer and then connects it keeps other
//! writers out in between, or may end up with more connections than
//! [`MAX_CONNECTIONS`](crate::table::MAX_CONNECTIONS). A thread that holds
//! the exclusive access must not query the ring: the query would wait for
//! that thread.

use crate::error::RingProtoError;
use crate::location::{Distance, Location, HALF_TURN};
use crate::table::ConnectionTable;
use parking_lot::RwLock;
use vstd::prelude::*;

verus! {

/// `lock_api::RwLock`, the reader-writer lock that `parking_lot::RwLock`
/// names. A lock is carried as it is: nothing is said of what it guards.
#[verifier::external_type_specification]
#[verifier::external_body]
#[verifier::reject_recursive_types(R)]
#[verifier::reject_recursive_types(T)]
pub struct ExRwLock<R, T: ?Sized>(parking_lot::lock_api::RwLock<R, T>);

/// `parking_lot::RawRwLock`, the raw lock inside `parking_lot::RwLock`. It
/// stands in the lock's type and nowhere else.
#[verifier::external_type_specification]
#[verifier::external_body]
pub struct ExRawRwLock(parking_lot::RawRwLock);

/// A node's connections and routing thresholds.
#[derive(Debug)]
#[verifier::reject_recursive_types(P)]
pub struct Ring<P> {
    /// The connections, for the connection manager to write and for the
    /// queries of the ring to read.
    pub connections_by_location: RwLock<ConnectionTable<P>>,
    /// With more hops left than this, a message goes to a peer picked
    /// without regard to its distance.
    pub rnd_if_htl_above: usize,
    /// The most hops that any message may still have to live.
    pub max_hops_to_live: usize,
}

impl<P: Copy> Ring<P> {
    /// The default of [`Ring::rnd_if_htl_above`].
    pub const RAND_WALK_ABOVE_HTL: usize = 7;

    /// The default of [`Ring::max_hops_to_live`].
    pub const MAX_HOPS_TO_LIVE: usize = 10;

    /// A ring without connections and with the default thresholds.
    pub fn new() -> (ring: Ring<P>)
        ensures
            ring.rnd_if_htl_above == 7,
            ring.max_hops_to_live == 10,
    {
        Ring {
            connections_by_location: new_lock(ConnectionTable::new()),
            rnd_if_htl_above: Self::RAND_WALK_ABOVE_HTL,
            max_hops_to_live: Self::MAX_HOPS_TO_LIVE,
        }
    }

    /// Sets the number of hops to live above which a message goes to a
    /// peer picked without regard to its distance.
    pub fn with_rnd_walk_above(&mut self, rnd_if_htl_above: usize) -> (ring: &mut Self)
        ensures
            ring.rnd_if_htl_above == rnd_if_htl_above,
            ring.max_hops_to_live == old(self).max_hops_to_live,
            ring.connections_by_location == old(self).connections_by_location,
            *final(self) == *final(ring),
    {
        self.rnd_if_htl_above = rnd_if_htl_above;
        self
    }

    /// Sets the most hops that any message may still have to live.
    pub fn with_max_hops(&mut self, max_hops_to_live: usize) -> (ring: &mut Self)
        ensures
            ring.max_hops_to_live == max_hops_to_live,
            ring.rnd_if_htl_above == old(self).rnd_if_htl_above,
            ring.connections_by_location == old(self).connections_by_location,
            *final(self) == *final(ring),
    {
        self.max_hops_to_live = max_hops_to_live;
        self
    }

    /// Whether the node, at `my_location`, admits a peer at `location`
    /// to the connections that it has at the time of the call.
    pub fn should_accept(&self, my_location: &Location, location: &Location) -> (accept: bool)
        ensures
            exists|table: ConnectionTable<P>|
                table.on_ring() && accept == #[trigger] table.admits(*my_location, *location),
            *location == *my_location ==> !accept,
    {
        let table = read_copy(&self.connections_by_location);
        proof {
            use_type_invariant(&table);
        }
        table.should_accept(my_location, location)
    }

    /// The median of the distances from `location` to the connections
    /// that the node has at the time of the call, or the failure to find
    /// one where it has none.
    pub fn median_distance_to(&self, location: &Location) -> (r: Result<Distance, RingProtoError>)
        ensures
            exists|table: ConnectionTable<P>|
                table.on_ring() && #[trigger] table.has_median(*location, r),
            r is Err ==> r == Err::<Distance, RingProtoError>(RingProtoError::EmptyRing),
            r is Ok ==> 0 <= r->Ok_0@ <= HALF_TURN,
    {
        let table = read_copy(&self.connections_by_location);
        proof {
            use_type_invariant(&table);
        }
        table.median_distance_to(location)
    }

    /// For each connection that the node has at the time of the call, by
    /// ascending position, its distance from `to` and the peer connected
    /// there.
    pub fn connections_by_distance(&self, to: &Location) -> (out: Vec<(Distance, P)>)
        ensures
            exists|table: ConnectionTable<P>|
                table.on_ring() && #[trigger] table.lists_by_distance(*to, out@),
    {
        let table = read_copy(&self.connections_by_location);
        proof {
            use_type_invariant(&table);
        }
        table.connections_by_distance(to)
    }

    /// Of the connections that the node has at the time of the call, the
    /// first peer by ascending position of which `filter_fn` holds, if
    /// there is one. The choice is not random.
    pub fn random_peer<F: Fn(&P) -> bool>(&self, filter_fn: F) -> (peer: Option<P>)
        requires
            forall|p: P| call_requires(filter_fn, (&p,)),
        ensures
            exists|table: ConnectionTable<P>|
                table.on_ring() && #[trigger] table.picks(filter_fn, peer),
    {
        let table = read_copy(&self.connections_by_location);
        proof {
            use_type_invariant(&table);
        }
        table.random_peer(filter_fn)
    }
}

/// Makes a lock with `parking_lot::RwLock::new`: unlocked, and guarding
/// `value`. Nothing is said of the lock.
#[verifier::external_body]
fn new_lock<T>(value: T) -> (lock: RwLock<T>) {
    RwLock::new(value)
}

/// Copies what the lock guards, under shared access taken with
/// `parking_lot::RwLock::read`: the call waits while a writer holds the
/// lock, for ever where the writer is the calling thread, and the access
/// ends when the copy is made. What the lock guards by then is whatever
/// the writers left, so nothing is said of the copy.
#[verifier::external_body]
fn read_copy<T: Clone>(lock: &RwLock<T>) -> (value: T) {
    lock.read().clone()
}

} // verus!
