use overlay_ring::{ConnError, Location, Ring, RingProtoError};

const PERCENT: i64 = 10_000_000_000_000_000;

fn place(percent: i64) -> Location {
    Location::try_from(percent * PERCENT).unwrap()
}

/// A ring with a peer at each of `percents`, named by its position.
fn ring_at(percents: &[i64]) -> Ring<i64> {
    let ring = Ring::new();
    {
        let mut table = ring.connections_by_location.write();
        for p in percents {
            table.insert(place(*p), *p);
        }
    }
    ring
}

#[test]
fn new_ring_has_the_default_thresholds() {
    let ring: Ring<i64> = Ring::new();
    assert_eq!(ring.rnd_if_htl_above, 7);
    assert_eq!(ring.max_hops_to_live, 10);
    assert_eq!(Ring::<i64>::RAND_WALK_ABOVE_HTL, 7);
    assert_eq!(Ring::<i64>::MAX_HOPS_TO_LIVE, 10);
}

#[test]
fn new_ring_has_no_connections() {
    let ring: Ring<i64> = Ring::new();
    assert_eq!(ring.connections_by_location.read().len(), 0);
    assert!(ring.connections_by_distance(&place(0)).is_empty());
    assert_eq!(ring.random_peer(|_| true), None);
}

#[test]
fn thresholds_are_set_one_after_the_other() {
    let mut ring: Ring<i64> = Ring::new();
    ring.with_rnd_walk_above(3).with_max_hops(25);
    assert_eq!(ring.rnd_if_htl_above, 3);
    assert_eq!(ring.max_hops_to_live, 25);
    ring.with_max_hops(4);
    assert_eq!(ring.rnd_if_htl_above, 3);
    assert_eq!(ring.max_hops_to_live, 4);
}

#[test]
fn setting_a_threshold_keeps_the_connections() {
    let mut ring = ring_at(&[20, 40]);
    ring.with_rnd_walk_above(1).with_max_hops(2);
    assert_eq!(ring.connections_by_location.read().len(), 2);
    assert_eq!(ring.random_peer(|_| true), Some(20));
}

#[test]
fn ring_sees_what_the_writer_left() {
    let ring = ring_at(&[70, 20, 40]);
    assert_eq!(
        ring.connections_by_distance(&place(50)),
        vec![(place(30), 20), (place(10), 40), (place(20), 70)]
    );
    ring.connections_by_location.write().remove(&place(40));
    assert_eq!(ring.connections_by_distance(&place(50)), vec![(place(30), 20), (place(20), 70)]);
}

#[test]
fn ring_median_distance() {
    let ring = ring_at(&[20, 40, 70]);
    assert_eq!(ring.median_distance_to(&place(50)), Ok(place(20)));
    // Of the four distances 30, 10, 20 and 40 the lower middle one is 20.
    ring.connections_by_location.write().insert(place(90), 90);
    assert_eq!(ring.median_distance_to(&place(50)), Ok(place(20)));
    ring.connections_by_location.write().insert(place(5), 5);
    assert_eq!(ring.median_distance_to(&place(50)), Ok(place(30)));
}

#[test]
fn ring_median_distance_without_connections_fails() {
    let ring: Ring<i64> = Ring::new();
    assert_eq!(ring.median_distance_to(&place(50)), Err(RingProtoError::EmptyRing));
}

#[test]
fn ring_accepts_anyone_new_while_it_has_few_connections() {
    let ring = ring_at(&[10, 20, 30, 40, 50, 60, 70, 80, 90]);
    assert!(ring.should_accept(&place(0), &place(45)));
    assert!(ring.should_accept(&place(0), &place(1)));
    assert!(!ring.should_accept(&place(0), &place(0)));
    assert!(!ring.should_accept(&place(0), &place(50)));
}

#[test]
fn ring_accepts_no_one_when_full() {
    let percents: Vec<i64> = (1..=20).collect();
    let ring = ring_at(&percents);
    assert_eq!(ring.connections_by_location.read().len(), 20);
    assert!(!ring.should_accept(&place(50), &place(51)));
    assert!(!ring.should_accept(&place(50), &place(99)));
    assert!(!ring.should_accept(&place(50), &place(50)));
}

#[test]
fn ring_accepts_the_nearer_half_in_between() {
    // Seen from 0 the twelve distances are 2, 4, .., 24 percent; the lower
    // of the two in the middle is 12.
    let percents: Vec<i64> = (1..=12).map(|i| 2 * i).collect();
    let ring = ring_at(&percents);
    assert_eq!(ring.median_distance_to(&place(0)), Ok(place(12)));
    assert!(ring.should_accept(&place(0), &place(11)));
    assert!(ring.should_accept(&place(0), &place(89)));
    assert!(!ring.should_accept(&place(0), &place(13)));
    assert!(!ring.should_accept(&place(0), &place(87)));
    // A candidate just as far as the median is not nearer.
    assert!(!ring.should_accept(&place(0), &place(88)));
}

#[test]
fn ring_random_peer_is_the_first_match_by_position() {
    let ring = ring_at(&[70, 20, 40]);
    assert_eq!(ring.random_peer(|p| *p > 70), None);
    assert_eq!(ring.random_peer(|p| *p == 40), Some(40));
    assert_eq!(ring.random_peer(|p| *p >= 40), Some(40));
    assert_eq!(ring.random_peer(|_| true), Some(20));
}

#[test]
fn connection_failure_is_passed_on_unchanged() {
    let failure = Box::new(ConnError { reason: String::from("handshake timed out") });
    let error = RingProtoError::from(failure.clone());
    assert_eq!(error, RingProtoError::ConnError(failure));
    match error {
        RingProtoError::ConnError(inner) => assert_eq!(inner.reason, "handshake timed out"),
        _ => panic!("the failure was not passed on"),
    }
}

#[test]
fn failures_differ() {
    assert_ne!(RingProtoError::Join, RingProtoError::EmptyRing);
    assert_ne!(RingProtoError::Join, RingProtoError::InvalidLocation);
    assert_ne!(RingProtoError::EmptyRing, RingProtoError::InvalidLocation);
}
