use labyrinth::tile::{step, Direction, Shape, Tile};

fn tile(shape: Shape, orientation: Direction) -> Tile {
    Tile { shape, orientation, whose_target: None }
}

#[test]
fn opposite_is_involution() {
    for d in [Direction::North, Direction::South, Direction::East, Direction::West] {
        assert_eq!(d.opposite().opposite(), d);
    }
    assert_eq!(Direction::North.opposite(), Direction::South);
    assert_eq!(Direction::East.opposite(), Direction::West);
}

#[test]
fn clockwise_cycles_in_four() {
    assert_eq!(Direction::North.clockwise(), Direction::East);
    assert_eq!(Direction::East.clockwise(), Direction::South);
    assert_eq!(Direction::South.clockwise(), Direction::West);
    assert_eq!(Direction::West.clockwise(), Direction::North);
    for d in [Direction::North, Direction::South, Direction::East, Direction::West] {
        assert_eq!(d.clockwise().clockwise().clockwise().clockwise(), d);
    }
}

#[test]
fn line_passes_both_ways() {
    let t = tile(Shape::Line, Direction::East);
    assert!(t.has_path(Direction::East));
    assert!(t.has_path(Direction::West));
    assert!(!t.has_path(Direction::North));
    assert!(!t.has_path(Direction::South));
}

#[test]
fn l_passes_orientation_and_clockwise() {
    let t = tile(Shape::L, Direction::North);
    assert!(t.has_path(Direction::North));
    assert!(t.has_path(Direction::East));
    assert!(!t.has_path(Direction::South));
    assert!(!t.has_path(Direction::West));
}

#[test]
fn t_passes_all_but_opposite() {
    let t = tile(Shape::T, Direction::North);
    assert!(t.has_path(Direction::North));
    assert!(t.has_path(Direction::East));
    assert!(t.has_path(Direction::West));
    assert!(!t.has_path(Direction::South));
}

#[test]
fn blank_passes_nothing() {
    let t = tile(Shape::Blank, Direction::North);
    for d in [Direction::North, Direction::South, Direction::East, Direction::West] {
        assert!(!t.has_path(d));
    }
    assert!(t.paths().is_empty());
}

#[test]
fn paths_lists_each_open_direction_once() {
    let t = tile(Shape::T, Direction::South);
    let ps = t.paths();
    assert_eq!(ps.len(), 3);
    assert!(ps.contains(&Direction::South));
    assert!(ps.contains(&Direction::East));
    assert!(ps.contains(&Direction::West));
    assert!(!ps.contains(&Direction::North));
}

#[test]
fn rotate_turns_a_quarter_clockwise() {
    let mut t = tile(Shape::L, Direction::North);
    t.rotate();
    assert_eq!(t.shape, Shape::L);
    assert_eq!(t.orientation, Direction::East);
    t.rotate();
    assert_eq!(t.orientation, Direction::South);
}

#[test]
fn from_draw_covers_the_twelve_combinations() {
    assert_eq!(Tile::from_draw(0), tile(Shape::Line, Direction::North));
    assert_eq!(Tile::from_draw(5), tile(Shape::L, Direction::East));
    assert_eq!(Tile::from_draw(11), tile(Shape::T, Direction::West));
    for k in 0..12 {
        let t = Tile::from_draw(k);
        assert!(t.whose_target.is_none());
        assert!(matches!(t.shape, Shape::Line | Shape::L | Shape::T));
    }
}

#[test]
fn random_tile_draws_from_the_playable_distribution() {
    let mut rng = <rand::rngs::StdRng as rand::SeedableRng>::seed_from_u64(7);
    for _ in 0..50 {
        let t = Tile::random(&mut rng);
        assert!(t.whose_target.is_none());
        assert!(matches!(t.shape, Shape::Line | Shape::L | Shape::T));
    }
}

#[test]
fn step_adds_a_unit_vector() {
    assert_eq!(step((2, 3), Direction::North), (1, 3));
    assert_eq!(step((2, 3), Direction::South), (3, 3));
    assert_eq!(step((2, 3), Direction::West), (2, 2));
    assert_eq!(step((2, 3), Direction::East), (2, 4));
}
