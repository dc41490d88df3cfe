use mazetool::direction::{Direction, NUM_OF_DIRECTIONS};

#[test]
fn directions_come_in_canonical_order() {
    assert_eq!(NUM_OF_DIRECTIONS, 4);
    assert_eq!(
        Direction::get_directions(),
        [Direction::North, Direction::East, Direction::West, Direction::South]
    );
}

#[test]
fn opposite_directions() {
    assert_eq!(Direction::North.get_opposite_direction(), Direction::South);
    assert_eq!(Direction::South.get_opposite_direction(), Direction::North);
    assert_eq!(Direction::East.get_opposite_direction(), Direction::West);
    assert_eq!(Direction::West.get_opposite_direction(), Direction::East);
}

#[test]
fn turning_round_twice_changes_nothing() {
    for direction in Direction::get_directions() {
        let opposite = direction.get_opposite_direction();
        assert_ne!(opposite, direction);
        assert_eq!(opposite.get_opposite_direction(), direction);
    }
}

#[test]
fn slots_and_directions_determine_each_other() {
    assert_eq!(Direction::North.index(), 0);
    assert_eq!(Direction::East.index(), 1);
    assert_eq!(Direction::West.index(), 2);
    assert_eq!(Direction::South.index(), 3);
    for (slot, direction) in Direction::get_directions().iter().enumerate() {
        assert_eq!(direction.index(), slot);
        assert_eq!(Direction::from_usize(slot), *direction);
    }
}

#[test]
fn from_usize_gives_south_for_large_values() {
    assert_eq!(Direction::from_usize(0), Direction::North);
    assert_eq!(Direction::from_usize(1), Direction::East);
    assert_eq!(Direction::from_usize(2), Direction::West);
    assert_eq!(Direction::from_usize(3), Direction::South);
    assert_eq!(Direction::from_usize(4), Direction::South);
    assert_eq!(Direction::from_usize(usize::MAX), Direction::South);
}

#[test]
fn remove_direction_takes_the_first_occurrence_out() {
    let mut directions = Direction::get_directions().to_vec();
    assert!(Direction::remove_direction(&mut directions, Direction::East));
    assert_eq!(directions, vec![Direction::North, Direction::West, Direction::South]);
    assert!(!Direction::remove_direction(&mut directions, Direction::East));
    assert_eq!(directions, vec![Direction::North, Direction::West, Direction::South]);
    assert!(Direction::remove_direction(&mut directions, Direction::South));
    assert_eq!(directions, vec![Direction::North, Direction::West]);
}

#[test]
fn remove_direction_leaves_later_occurrences() {
    let mut directions =
        vec![Direction::West, Direction::North, Direction::West, Direction::West];
    assert!(Direction::remove_direction(&mut directions, Direction::West));
    assert_eq!(directions, vec![Direction::North, Direction::West, Direction::West]);
    let mut empty: Vec<Direction> = Vec::new();
    assert!(!Direction::remove_direction(&mut empty, Direction::North));
    assert!(empty.is_empty());
}

#[test]
fn names_of_directions() {
    assert_eq!(Direction::North.name(), "North");
    assert_eq!(Direction::East.name(), "East");
    assert_eq!(Direction::West.name(), "West");
    assert_eq!(Direction::South.name(), "South");
}
