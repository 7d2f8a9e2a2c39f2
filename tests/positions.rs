use pylos::coordinate_conversions::GameConstants;
use pylos::{Position, PositionSet, PylosError};

#[test]
fn position_construction_and_getters() {
    let gc = GameConstants::build(3).unwrap();
    let position = Position::build(&gc, 1, 2, 3).unwrap();
    let (layer, x, y) = position.coordinates();
    assert_eq!(layer, 1);
    assert_eq!(x, 2);
    assert_eq!(y, 3);
}

#[test]
fn valid_positions() {
    let gc = GameConstants::build(2).unwrap();
    let _ = [
        Position::build(&gc, 1, 1, 1).unwrap(),
        Position::build(&gc, 1, 1, 2).unwrap(),
        Position::build(&gc, 1, 2, 1).unwrap(),
        Position::build(&gc, 1, 2, 2).unwrap(),
        Position::build(&gc, 2, 1, 1).unwrap(),
    ];
}

#[test]
fn invalid_positions() {
    let gc = GameConstants::build(2).unwrap();
    let positions = [
        Position::build(&gc, 0, 0, 0),
        Position::build(&gc, 1, 0, 0),
        Position::build(&gc, 1, 3, 1),
        Position::build(&gc, 1, 1, 3),
        Position::build(&gc, 3, 1, 1),
    ];

    assert_eq!(None, positions.into_iter().find(|p| p.is_ok()));
}

#[test]
fn can_add_position_to_set() {
    let gc = GameConstants::build(2).unwrap();
    let p1 = Position::build(&gc, 2, 1, 1).unwrap();
    let p2 = Position::build(&gc, 1, 2, 1).unwrap();
    let mut position_set = PositionSet::new();
    position_set.insert(&p1);
    assert!(position_set.contains(&p1));
    assert!(!position_set.contains(&p2));
    position_set.insert(&p2);
    assert!(position_set.contains(&p1));
    assert!(position_set.contains(&p2));
}

#[test]
fn can_remove_position_from_set() {
    let gc = GameConstants::build(2).unwrap();
    let p1 = Position::build(&gc, 2, 1, 1).unwrap();
    let p2 = Position::build(&gc, 1, 2, 1).unwrap();
    let mut position_set = PositionSet::new();
    position_set.insert(&p1);
    position_set.insert(&p2);
    assert!(position_set.contains(&p1));
    assert!(position_set.contains(&p2));
    position_set.remove(&p2);
    assert!(position_set.contains(&p1));
    assert!(!position_set.contains(&p2));
}

#[test]
fn set_union() {
    let gc = GameConstants::build(2).unwrap();
    let p1 = Position::build(&gc, 2, 1, 1).unwrap();
    let p2 = Position::build(&gc, 1, 2, 1).unwrap();
    let p3 = Position::build(&gc, 1, 1, 1).unwrap();
    let p4 = Position::build(&gc, 1, 1, 2).unwrap();
    let mut set1 = PositionSet::new();
    let mut set2 = PositionSet::new();
    set1.insert(&p1);
    set1.insert(&p2);
    set2.insert(&p2);
    set2.insert(&p3);
    assert_eq!(set1, set1);
    assert_ne!(set1, set2);
    let union = set1.union(&set2);
    assert!(union.contains(&p1));
    assert!(union.contains(&p2));
    assert!(union.contains(&p3));
    assert!(!union.contains(&p4));
}

#[test]
fn set_intersection() {
    let gc = GameConstants::build(2).unwrap();
    let p1 = Position::build(&gc, 2, 1, 1).unwrap();
    let p2 = Position::build(&gc, 1, 2, 1).unwrap();
    let p3 = Position::build(&gc, 1, 1, 1).unwrap();
    let mut set1 = PositionSet::new();
    let mut set2 = PositionSet::new();
    set1.insert(&p1);
    set1.insert(&p2);
    set2.insert(&p2);
    set2.insert(&p3);
    let intersection = set1.intersection(&set2);
    assert!(!intersection.contains(&p1));
    assert!(intersection.contains(&p2));
    assert!(!intersection.contains(&p3));
}

#[test]
fn set_difference() {
    let gc = GameConstants::build(2).unwrap();
    let p1 = Position::build(&gc, 2, 1, 1).unwrap();
    let p2 = Position::build(&gc, 1, 2, 1).unwrap();
    let p3 = Position::build(&gc, 1, 1, 1).unwrap();
    let mut set1 = PositionSet::new();
    let mut set2 = PositionSet::new();
    set1.insert(&p1);
    set1.insert(&p2);
    set2.insert(&p2);
    set2.insert(&p3);
    let difference = set1.difference(&set2);
    assert!(difference.contains(&p1));
    assert!(!difference.contains(&p2));
    assert!(!difference.contains(&p3));
}

#[test]
fn build_errors_name_their_cause() {
    let gc = GameConstants::build(2).unwrap();
    assert_eq!(
        Position::build(&gc, 3, 1, 1),
        Err(PylosError::LayerOutOfRange { layers: 2, layer: 3 })
    );
    assert_eq!(Position::build(&gc, 0, 1, 1), Err(PylosError::InvalidLayer));
    assert_eq!(Position::build(&gc, 0, 0, 0), Err(PylosError::InvalidLayer));
    assert_eq!(
        Position::build(&gc, 1, 0, 1),
        Err(PylosError::CoordinateOutOfRange { coordinate: 0, layer_size: 2 })
    );
    assert_eq!(
        Position::build(&gc, 1, 3, 1),
        Err(PylosError::CoordinateOutOfRange { coordinate: 3, layer_size: 2 })
    );
    assert_eq!(
        Position::build(&gc, 1, 1, 3),
        Err(PylosError::CoordinateOutOfRange { coordinate: 3, layer_size: 2 })
    );
    assert_eq!(
        Position::build(&gc, 2, 2, 1),
        Err(PylosError::CoordinateOutOfRange { coordinate: 2, layer_size: 1 })
    );
}

#[test]
fn every_game_coordinate_round_trips() {
    for layers in 1..=5u32 {
        let gc = GameConstants::build(layers).unwrap();
        for layer in 1..=layers {
            let size = layers - layer + 1;
            for x in 1..=size {
                for y in 1..=size {
                    let p = Position::build(&gc, layer, x, y).unwrap();
                    assert_eq!(p.coordinates(), (layer, x, y));
                }
            }
        }
    }
}

#[test]
fn distinct_coordinates_are_distinct_members() {
    let gc = GameConstants::build(5).unwrap();
    let mut set = PositionSet::new();
    let mut count = 0u32;
    for layer in 1..=5u32 {
        let size = 5 - layer + 1;
        for x in 1..=size {
            for y in 1..=size {
                let p = Position::build(&gc, layer, x, y).unwrap();
                assert!(!set.contains(&p));
                set.insert(&p);
                assert!(set.contains(&p));
                count += 1;
            }
        }
    }
    assert_eq!(count, 55);
}

#[test]
fn insert_and_remove_are_idempotent() {
    let gc = GameConstants::build(3).unwrap();
    let p = Position::build(&gc, 2, 2, 1).unwrap();
    let q = Position::build(&gc, 3, 1, 1).unwrap();
    let mut once = PositionSet::new();
    once.insert(&q);
    once.insert(&p);
    let mut twice = once;
    twice.insert(&p);
    assert_eq!(once, twice);
    once.remove(&p);
    assert!(!once.contains(&p));
    assert!(once.contains(&q));
    twice.remove(&p);
    twice.remove(&p);
    assert_eq!(once, twice);
    assert_ne!(once, PositionSet::new());
}

#[test]
fn set_algebra_identities() {
    let gc = GameConstants::build(4).unwrap();
    let p1 = Position::build(&gc, 1, 1, 1).unwrap();
    let p2 = Position::build(&gc, 2, 3, 2).unwrap();
    let p3 = Position::build(&gc, 4, 1, 1).unwrap();
    let p4 = Position::build(&gc, 1, 4, 4).unwrap();
    let mut a = PositionSet::new();
    let mut b = PositionSet::new();
    a.insert(&p1);
    a.insert(&p2);
    b.insert(&p2);
    b.insert(&p3);
    assert_eq!(a.difference(&b).intersection(&b), PositionSet::new());
    let union = a.union(&b);
    for p in [&p1, &p2, &p3, &p4] {
        assert_eq!(union.contains(p), a.contains(p) || b.contains(p));
        assert_eq!(a.intersection(&b).contains(p), a.contains(p) && b.contains(p));
        assert_eq!(a.difference(&b).contains(p), a.contains(p) && !b.contains(p));
    }
    assert_eq!(a.union(&b), b.union(&a));
    assert!(!PositionSet::new().contains(&p4));
}
