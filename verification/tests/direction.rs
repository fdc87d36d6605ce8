use maze_generator::Direction;

const ALL: [Direction; 4] = [Direction::North, Direction::East, Direction::South, Direction::West];

#[test]
fn right_turns_clockwise() {
    assert_eq!(Direction::North.right(), Direction::East);
    assert_eq!(Direction::East.right(), Direction::South);
    assert_eq!(Direction::South.right(), Direction::West);
    assert_eq!(Direction::West.right(), Direction::North);
}

#[test]
fn left_turns_counter_clockwise() {
    assert_eq!(Direction::North.left(), Direction::West);
    assert_eq!(Direction::West.left(), Direction::South);
    assert_eq!(Direction::South.left(), Direction::East);
    assert_eq!(Direction::East.left(), Direction::North);
}

#[test]
fn opposite_turns_round() {
    assert_eq!(Direction::North.opposite(), Direction::South);
    assert_eq!(Direction::South.opposite(), Direction::North);
    assert_eq!(Direction::East.opposite(), Direction::West);
    assert_eq!(Direction::West.opposite(), Direction::East);
}

#[test]
fn to_usize_numbers_the_directions() {
    assert_eq!(Direction::North.to_usize(), 0);
    assert_eq!(Direction::East.to_usize(), 1);
    assert_eq!(Direction::South.to_usize(), 2);
    assert_eq!(Direction::West.to_usize(), 3);
}

#[test]
fn left_undoes_right() {
    for d in ALL {
        assert_eq!(d.right().left(), d);
        assert_eq!(d.left().right(), d);
    }
}

#[test]
fn two_quarter_turns_are_a_half_turn() {
    for d in ALL {
        assert_eq!(d.right().right(), d.opposite());
        assert_eq!(d.left().left(), d.opposite());
        assert_eq!(d.opposite().opposite(), d);
    }
}

#[test]
fn four_right_turns_lead_round() {
    for d in ALL {
        assert_eq!(d.right().right().right().right(), d);
        assert_eq!(d.right().right().right(), d.left());
    }
}

#[test]
fn to_string_names_the_direction() {
    assert_eq!(Direction::North.to_string(), "North");
    assert_eq!(Direction::East.to_string(), "East");
    assert_eq!(Direction::South.to_string(), "South");
    assert_eq!(Direction::West.to_string(), "West");
}
