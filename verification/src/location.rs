//! Positions on the ring and the shorter-arc distance between them.
//!
//! A position is held as a whole number of units, [`FULL_TURN`] of them to
//! one turn of the ring, so that every comparison and every distance is
//! exact.

use crate::error::RingProtoError;
use core::cmp::Ordering;
use rand::Rng;
use vstd::prelude::*;
use vstd::std_specs::cmp::PartialOrdSpec;
use vstd::std_specs::convert::TryFromSpecImpl;

verus! {

/// The number of units in one full turn of the ring: the position `1`.
pub const FULL_TURN: u64 = 1_000_000_000_000_000_000;

/// The number of units in half a turn: the largest distance there is.
pub const HALF_TURN: u64 = 500_000_000_000_000_000;

/// The shorter of the two arcs between the positions `a` and `b`, in units.
pub open spec fn arc(a: int, b: int) -> int {
    let d = if a <= b { b - a } else { a - b };
    if d <= FULL_TURN - d { d } else { FULL_TURN - d }
}

/// A position on the ring, in the closed interval from `0` to `1`.
#[derive(Clone, Copy, Debug, PartialEq, Eq, Structural, Hash, Ord)]
pub struct Location {
    units: u64,
}

/// The length of the shorter arc between two positions: at most half a turn.
pub type Distance = Location;

impl View for Location {
    type V = int;

    /// The position in units.
    closed spec fn view(&self) -> int {
        self.units as int
    }
}

impl Location {
    /// A position lies on the ring: between `0` and one full turn.
    #[verifier::type_invariant]
    pub open spec fn on_ring(&self) -> bool {
        0 <= self@ <= FULL_TURN
    }

    /// The position that lies `units` from `0`.
    pub closed spec fn at(units: int) -> Location {
        Location { units: units as u64 }
    }

    /// The position in units, as the key under which a table keeps it.
    pub(crate) closed spec fn key(&self) -> u64 {
        self.units
    }

    /// A position drawn uniformly from the whole ring, both ends included.
    pub fn random() -> (location: Location)
        ensures
            location.on_ring(),
    {
        Location { units: sample_inclusive(0, FULL_TURN) }
    }

    /// The position that lies `units` from `0`.
    pub(crate) fn from_units(units: u64) -> (location: Location)
        requires
            units <= FULL_TURN,
        ensures
            location@ == units,
            location == Location::at(units as int),
    {
        Location { units }
    }

    /// The position in units.
    pub fn units(&self) -> (units: u64)
        ensures
            units == self@,
            units <= FULL_TURN,
    {
        proof {
            use_type_invariant(self);
        }
        self.units
    }

    /// The length of the shorter arc between `self` and `other`: the
    /// same in both directions, nothing from a position to itself, and
    /// never more than half a turn.
    pub fn distance(&self, other: &Location) -> (d: Distance)
        ensures
            d@ == arc(self@, other@),
            d@ == arc(other@, self@),
            self == other ==> d@ == 0,
            0 <= d@ <= HALF_TURN,
    {
        proof {
            use_type_invariant(self);
            use_type_invariant(other);
        }
        let d: u64 = if self.units <= other.units {
            other.units - self.units
        } else {
            self.units - other.units
        };
        if d < HALF_TURN {
            Location { units: d }
        } else {
            Location { units: FULL_TURN - d }
        }
    }
}

impl PartialOrd for Location {
    /// Positions are ordered as their distances from `0` are.
    fn partial_cmp(&self, other: &Location) -> (r: Option<Ordering>) {
        if self.units < other.units {
            Some(Ordering::Less)
        } else if self.units > other.units {
            Some(Ordering::Greater)
        } else {
            Some(Ordering::Equal)
        }
    }
}

impl vstd::std_specs::cmp::PartialOrdSpecImpl for Location {
    open spec fn obeys_partial_cmp_spec() -> bool {
        true
    }

    open spec fn partial_cmp_spec(&self, other: &Location) -> Option<Ordering> {
        if self@ < other@ {
            Some(Ordering::Less)
        } else if self@ > other@ {
            Some(Ordering::Greater)
        } else {
            Some(Ordering::Equal)
        }
    }
}

impl TryFrom<i64> for Location {
    type Error = RingProtoError;

    /// The position that lies `value` units from `0`, where there is one.
    fn try_from(value: i64) -> (r: Result<Location, RingProtoError>)
        ensures
            0 <= value <= FULL_TURN ==> r is Ok && r->Ok_0@ == value,
            !(0 <= value <= FULL_TURN) ==> r == Err::<Location, RingProtoError>(
                RingProtoError::InvalidLocation,
            ),
    {
        if value < 0 || value > FULL_TURN as i64 {
            Err(RingProtoError::InvalidLocation)
        } else {
            Ok(Location { units: value as u64 })
        }
    }
}

impl TryFromSpecImpl<i64> for Location {
    open spec fn obeys_try_from_spec() -> bool {
        true
    }

    open spec fn try_from_spec(value: i64) -> Result<Location, RingProtoError> {
        if 0 <= value <= FULL_TURN {
            Ok(Location::at(value as int))
        } else {
            Err(RingProtoError::InvalidLocation)
        }
    }
}

/// The key of a position is its number of units, and finds it again.
pub(crate) proof fn lemma_key(location: Location)
    ensures
        location.key() == location@,
        Location::at(location@) == location,
{
}

/// The position asked for by a key has that key.
pub(crate) proof fn lemma_at_key(key: u64)
    ensures
        Location::at(key as int).key() == key,
        Location::at(key as int)@ == key,
{
}

/// Two positions with the same number of units are one position.
pub proof fn lemma_units_determine_location(a: Location, b: Location)
    ensures
        a@ == b@ <==> a == b,
{
}

/// The position asked for by its units lies that many units from `0`.
pub proof fn lemma_location_at(units: int)
    requires
        0 <= units <= FULL_TURN,
    ensures
        Location::at(units)@ == units,
        Location::at(units).on_ring(),
{
}

/// Positions stand in one order, that of their units: two positions are
/// the same or one of them comes first, and what comes before an earlier
/// position comes before a later one.
pub proof fn lemma_positions_are_ordered(a: Location, b: Location, c: Location)
    ensures
        a.partial_cmp_spec(&b) is Some,
        a.partial_cmp_spec(&b) == Some(Ordering::Equal) <==> a == b,
        a.partial_cmp_spec(&b) == Some(Ordering::Less) <==> b.partial_cmp_spec(&a) == Some(
            Ordering::Greater,
        ),
        a.partial_cmp_spec(&b) == Some(Ordering::Less) && b.partial_cmp_spec(&c) == Some(
            Ordering::Less,
        ) ==> a.partial_cmp_spec(&c) == Some(Ordering::Less),
{
}

/// The distance between two positions on the ring is the same in both
/// directions, is nothing from a position to itself, and is never more
/// than half a turn.
pub proof fn lemma_distance_is_a_ring_metric(a: Location, b: Location)
    requires
        a.on_ring(),
        b.on_ring(),
    ensures
        arc(a@, b@) == arc(b@, a@),
        arc(a@, a@) == 0,
        0 <= arc(a@, b@) <= HALF_TURN,
{
}

/// The distance between two positions on the ring is nothing exactly when
/// they are one position, or are the two ends `0` and `1`, which meet.
pub proof fn lemma_distance_zero(a: Location, b: Location)
    requires
        a.on_ring(),
        b.on_ring(),
    ensures
        arc(a@, b@) == 0 <==> a == b || (a@ == 0 && b@ == FULL_TURN) || (a@ == FULL_TURN && b@
            == 0),
{
}

/// Draws a number with `rand::Rng::gen_range` from the generator that
/// `rand::thread_rng` keeps for the calling thread. The range is inclusive
/// at both ends and must not be empty, or the call would panic; the number
/// drawn lies in it. Which number is drawn is left open.
#[verifier::external_body]
fn sample_inclusive(low: u64, high: u64) -> (n: u64)
    requires
        low <= high,
    ensures
        low <= n <= high,
{
    rand::thread_rng().gen_range(low..=high)
}

} // verus!
