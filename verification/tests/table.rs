use overlay_ring::median::median_of;
use overlay_ring::table::{MAX_CONNECTIONS, MIN_CONNECTIONS};
use overlay_ring::{ConnectionTable, Location, RingProtoError};

const THOUSANDTH: i64 = 1_000_000_000_000_000;

fn spot(thousandths: i64) -> Location {
    Location::try_from(thousandths * THOUSANDTH).unwrap()
}

/// A table with a peer at each of `thousandths`, named by its position.
fn table_at(thousandths: &[i64]) -> ConnectionTable<i64> {
    let mut table = ConnectionTable::new();
    for t in thousandths {
        table.insert(spot(*t), *t);
    }
    table
}

/// `n` positions spread over the ring, none of them at `0`.
fn spread(n: usize) -> Vec<i64> {
    (0..n as i64).map(|i| 10 + i * 40).collect()
}

#[test]
fn new_table_is_empty() {
    let table: ConnectionTable<i64> = ConnectionTable::new();
    assert_eq!(table.len(), 0);
    assert!(!table.contains_key(&spot(0)));
    assert_eq!(table.get(&spot(0)), None);
    assert!(table.connections_by_distance(&spot(0)).is_empty());
}

#[test]
fn insert_connects_and_replaces() {
    let mut table = ConnectionTable::new();
    assert_eq!(table.insert(spot(300), 'a'), None);
    assert_eq!(table.insert(spot(100), 'b'), None);
    assert_eq!(table.len(), 2);
    assert!(table.contains_key(&spot(300)));
    assert_eq!(table.get(&spot(100)), Some('b'));
    assert_eq!(table.insert(spot(300), 'c'), Some('a'));
    assert_eq!(table.len(), 2);
    assert_eq!(table.get(&spot(300)), Some('c'));
}

#[test]
fn remove_disconnects() {
    let mut table = table_at(&[100, 200, 300]);
    assert_eq!(table.remove(&spot(200)), Some(200));
    assert_eq!(table.remove(&spot(200)), None);
    assert_eq!(table.len(), 2);
    assert!(!table.contains_key(&spot(200)));
    assert!(table.contains_key(&spot(100)));
    assert!(table.contains_key(&spot(300)));
}

#[test]
fn clone_keeps_the_connections_apart() {
    let mut table = table_at(&[100, 200]);
    let copy = table.clone();
    table.remove(&spot(100));
    assert_eq!(copy.len(), 2);
    assert_eq!(copy.get(&spot(100)), Some(100));
    assert_eq!(table.len(), 1);
}

#[test]
fn admission_bounds() {
    assert_eq!(MIN_CONNECTIONS, 10);
    assert_eq!(MAX_CONNECTIONS, 20);
}

#[test]
fn should_accept_anyone_new_below_the_minimum() {
    let own = spot(0);
    for n in 0..10 {
        let table = table_at(&spread(n));
        assert_eq!(table.len(), n);
        // The antipode is as far as a candidate can be.
        assert!(table.should_accept(&own, &spot(500)));
        assert!(table.should_accept(&own, &spot(1)));
        assert!(table.should_accept(&own, &spot(999)));
    }
}

#[test]
fn should_accept_no_one_at_the_maximum() {
    let own = spot(0);
    let table = table_at(&spread(20));
    assert_eq!(table.len(), 20);
    assert!(!table.should_accept(&own, &spot(1)));
    assert!(!table.should_accept(&own, &spot(500)));
    assert!(!table.should_accept(&own, &spot(999)));
    assert!(!table.should_accept(&own, &own));
    assert!(!table.should_accept(&own, &spot(10)));
}

#[test]
fn should_accept_no_one_past_the_maximum() {
    let own = spot(0);
    let table = table_at(&spread(23));
    assert_eq!(table.len(), 23);
    assert!(!table.should_accept(&own, &spot(1)));
}

#[test]
fn should_accept_never_the_own_position() {
    for n in [0, 1, 9, 10, 15, 19, 20] {
        let table = table_at(&spread(n));
        for own in [0, 10, 500, 1000] {
            assert!(!table.should_accept(&spot(own), &spot(own)));
        }
    }
}

#[test]
fn should_accept_never_a_connected_position() {
    for n in [1, 9, 10, 15, 19, 20] {
        let positions = spread(n);
        let table = table_at(&positions);
        for p in positions {
            assert!(!table.should_accept(&spot(0), &spot(p)));
        }
    }
}

#[test]
fn should_accept_between_the_bounds_only_nearer_than_the_median() {
    // Connections at 10, 50, .., 370 thousandths: seen from 0 the distances
    // are the positions, and the lower of the two in the middle is 170.
    let own = spot(0);
    let table = table_at(&spread(10));
    assert_eq!(table.median_distance_to(&own).unwrap(), spot(170));
    assert!(table.should_accept(&own, &spot(169)));
    assert!(table.should_accept(&own, &spot(1)));
    assert!(table.should_accept(&own, &spot(831)));
    assert!(!table.should_accept(&own, &spot(171)));
    assert!(!table.should_accept(&own, &spot(209)));
    assert!(!table.should_accept(&own, &spot(500)));
    assert!(!table.should_accept(&own, &spot(829)));
    // A candidate just as far as the median is not nearer.
    assert!(!table.should_accept(&own, &spot(830)));
}

#[test]
fn should_accept_changes_nothing() {
    let table = table_at(&spread(12));
    let before = table.connections_by_distance(&spot(0));
    table.should_accept(&spot(0), &spot(5));
    assert_eq!(table.connections_by_distance(&spot(0)), before);
    assert_eq!(table.len(), 12);
}

#[test]
fn median_of_three_distances() {
    // From 500 the neighbours lie 300, 100 and 200 thousandths away.
    let table = table_at(&[200, 400, 700]);
    assert_eq!(table.median_distance_to(&spot(500)), Ok(spot(200)));
}

#[test]
fn median_of_four_distances() {
    // From 500 the neighbours lie 300, 100, 200 and 400 thousandths away:
    // the lower of the two in the middle is 200.
    let table = table_at(&[200, 400, 700, 900]);
    assert_eq!(table.median_distance_to(&spot(500)), Ok(spot(200)));
}

#[test]
fn median_of_one_and_two_distances() {
    assert_eq!(table_at(&[250]).median_distance_to(&spot(0)), Ok(spot(250)));
    assert_eq!(table_at(&[100, 250]).median_distance_to(&spot(0)), Ok(spot(100)));
    assert_eq!(table_at(&[750, 900]).median_distance_to(&spot(0)), Ok(spot(100)));
}

#[test]
fn median_sorts_the_distances() {
    // By position the distances from 0 come as 400, 400, 300, 50: in
    // ascending order the second of the four is 300.
    let table = table_at(&[400, 600, 700, 950]);
    assert_eq!(table.median_distance_to(&spot(0)), Ok(spot(300)));
}

#[test]
fn median_of_an_empty_table_fails() {
    let table: ConnectionTable<i64> = ConnectionTable::new();
    assert_eq!(table.median_distance_to(&spot(500)), Err(RingProtoError::EmptyRing));
    assert_eq!(table.median_distance_to(&spot(0)), Err(RingProtoError::EmptyRing));
}

#[test]
fn median_of_numbers() {
    assert_eq!(median_of(vec![]), None);
    assert_eq!(median_of(vec![7]), Some(7));
    assert_eq!(median_of(vec![9, 1]), Some(1));
    assert_eq!(median_of(vec![3, 1, 2]), Some(2));
    assert_eq!(median_of(vec![4, 3, 1, 2]), Some(2));
    assert_eq!(median_of(vec![6, 2, 4, 2, 6, 4]), Some(4));
    assert_eq!(median_of(vec![8, 1, 8, 1]), Some(1));
    assert_eq!(median_of(vec![5, 5, 1, 5, 1]), Some(5));
}

#[test]
fn connections_by_distance_come_by_position() {
    let table = table_at(&[700, 200, 400]);
    let listed = table.connections_by_distance(&spot(500));
    assert_eq!(listed, vec![(spot(300), 200), (spot(100), 400), (spot(200), 700)]);
}

#[test]
fn connections_by_distance_wrap_around() {
    let table = table_at(&[950, 50]);
    let listed = table.connections_by_distance(&spot(0));
    assert_eq!(listed, vec![(spot(50), 50), (spot(50), 950)]);
}

#[test]
fn random_peer_without_a_match_is_none() {
    let table = table_at(&[100, 200, 300]);
    assert_eq!(table.random_peer(|p| *p > 300), None);
    let empty: ConnectionTable<i64> = ConnectionTable::new();
    assert_eq!(empty.random_peer(|_| true), None);
}

#[test]
fn random_peer_with_one_match_is_that_peer() {
    let table = table_at(&[300, 100, 200]);
    assert_eq!(table.random_peer(|p| *p == 200), Some(200));
    assert_eq!(table.random_peer(|p| *p == 300), Some(300));
}

#[test]
fn random_peer_with_several_matches_is_the_first_by_position() {
    let table = table_at(&[300, 100, 200]);
    assert_eq!(table.random_peer(|p| *p >= 200), Some(200));
    assert_eq!(table.random_peer(|_| true), Some(100));
    for _ in 0..20 {
        assert_eq!(table.random_peer(|p| *p != 100), Some(200));
    }
}

#[test]
fn both_ends_of_the_interval_can_be_connected() {
    let table = table_at(&[0, 1000]);
    assert_eq!(table.len(), 2);
    assert_eq!(
        table.connections_by_distance(&spot(1000)),
        vec![(spot(0), 0), (spot(0), 1000)]
    );
    assert_eq!(table.connections_by_distance(&spot(250)), vec![(spot(250), 0), (spot(250), 1000)]);
    assert_eq!(table.random_peer(|_| true), Some(0));
}

#[test]
fn should_accept_at_the_minimum_asks_the_median() {
    // With ten connections the bootstrap phase is over: a far candidate
    // that nine connections would admit is turned away.
    let own = spot(0);
    assert!(table_at(&spread(9)).should_accept(&own, &spot(500)));
    assert!(!table_at(&spread(10)).should_accept(&own, &spot(500)));
}

#[test]
fn should_accept_just_below_the_maximum_asks_the_median() {
    // Nineteen connections at 10, 50, .., 730 thousandths: seen from 0 the
    // distances are 10, 50, .., 490 and 470, 430, .., 270; of the nineteen
    // in ascending order the one at index 9 is 310.
    let own = spot(0);
    let table = table_at(&spread(19));
    assert_eq!(table.median_distance_to(&own), Ok(spot(310)));
    assert!(table.should_accept(&own, &spot(309)));
    assert!(!table.should_accept(&own, &spot(311)));
    assert!(table.should_accept(&own, &spot(691)));
    assert!(!table.should_accept(&own, &spot(689)));
}
