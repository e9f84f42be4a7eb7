use labyrinth::board::{Board, PlayerToken};
use labyrinth::tile::{Direction, Player, Shape, Tile};
use rand::SeedableRng;

fn rng(seed: u64) -> rand::rngs::StdRng {
    rand::rngs::StdRng::seed_from_u64(seed)
}

fn fresh_board(width: usize, height: usize, ids: &[u64], seed: u64) -> Board {
    let players: Vec<Player> = ids.iter().map(|&id| Player { id }).collect();
    Board::new(width, height, &players, &mut rng(seed))
}

fn blank() -> Tile {
    Tile { shape: Shape::Blank, orientation: Direction::North, whose_target: None }
}

/// A board whose every cell is marked with a unique target id, so each tile
/// can be followed through a shift.
fn marked_board(width: usize, height: usize) -> Board {
    let mut b = fresh_board(width, height, &[1], 11);
    for row in 0..height {
        for col in 0..width {
            let mark = (row * width + col) as u64;
            b.set(
                [col, row],
                Tile {
                    shape: Shape::Line,
                    orientation: Direction::North,
                    whose_target: Some(mark),
                },
            );
        }
    }
    b.loose_tile = Tile {
        shape: Shape::T,
        orientation: Direction::East,
        whose_target: Some(999),
    };
    b
}

/// A board whose non-corner cells are all solid walls.
fn walled_board(width: usize, height: usize) -> Board {
    let mut b = fresh_board(width, height, &[1], 13);
    for row in 0..height {
        for col in 0..width {
            let corner = (row == 0 || row == height - 1) && (col == 0 || col == width - 1);
            if !corner {
                b.set([col, row], blank());
            }
        }
    }
    b
}

#[test]
fn new_board_has_requested_dimensions() {
    let b = fresh_board(7, 9, &[1], 3);
    assert_eq!(b.width(), 7);
    assert_eq!(b.height(), 9);
    assert!(b.loose_tile_position.is_none());
}

#[test]
fn new_board_corners_are_fixed_l_pieces() {
    let b = fresh_board(7, 7, &[1], 5);
    let tl = b.get([0, 0]);
    assert_eq!(tl.shape, Shape::L);
    assert_eq!(tl.orientation, Direction::East);
    let tr = b.get([6, 0]);
    assert_eq!(tr.shape, Shape::L);
    assert_eq!(tr.orientation, Direction::South);
    let bl = b.get([0, 6]);
    assert_eq!(bl.shape, Shape::L);
    assert_eq!(bl.orientation, Direction::North);
    let br = b.get([6, 6]);
    assert_eq!(br.shape, Shape::L);
    assert_eq!(br.orientation, Direction::West);
}

#[test]
fn new_board_corner_passages_point_inward() {
    let b = fresh_board(5, 5, &[1], 5);
    let tl = b.get([0, 0]);
    assert!(tl.has_path(Direction::East) && tl.has_path(Direction::South));
    assert!(!tl.has_path(Direction::North) && !tl.has_path(Direction::West));
    let tr = b.get([4, 0]);
    assert!(tr.has_path(Direction::South) && tr.has_path(Direction::West));
    assert!(!tr.has_path(Direction::North) && !tr.has_path(Direction::East));
    let bl = b.get([0, 4]);
    assert!(bl.has_path(Direction::North) && bl.has_path(Direction::East));
    assert!(!bl.has_path(Direction::South) && !bl.has_path(Direction::West));
    let br = b.get([4, 4]);
    assert!(br.has_path(Direction::North) && br.has_path(Direction::West));
    assert!(!br.has_path(Direction::South) && !br.has_path(Direction::East));
}

#[test]
fn new_board_assigns_tokens_by_ascending_id() {
    let b = fresh_board(7, 7, &[4, 9, 23, 40], 5);
    assert_eq!(b.player_tokens.len(), 4);
    assert_eq!(b.player_tokens[&4].position, (0, 0));
    assert_eq!(b.player_tokens[&9].position, (6, 6));
    assert_eq!(b.player_tokens[&23].position, (0, 6));
    assert_eq!(b.player_tokens[&40].position, (6, 0));
    for (&id, token) in &b.player_tokens {
        assert_eq!(token.player_id, id);
        assert_eq!(token.score, 0);
    }
}

#[test]
fn player_token_new_starts_with_zero_score() {
    let t = PlayerToken::new(&Player { id: 8 }, (2, 3));
    assert_eq!(t.player_id, 8);
    assert_eq!(t.position, (2, 3));
    assert_eq!(t.score, 0);
}

#[test]
fn valid_tests_every_edge() {
    let b = fresh_board(5, 5, &[1], 5);
    assert!(!b.valid((0, 0), Direction::North));
    assert!(!b.valid((0, 0), Direction::West));
    assert!(b.valid((0, 0), Direction::South));
    assert!(b.valid((0, 0), Direction::East));
    assert!(!b.valid((4, 4), Direction::South));
    assert!(!b.valid((4, 4), Direction::East));
    assert!(b.valid((4, 4), Direction::North));
    assert!(b.valid((4, 4), Direction::West));
}

#[test]
fn stage_insertion_sets_the_slot() {
    let mut b = fresh_board(7, 7, &[1], 5);
    b.stage_insertion(Direction::West, 2);
    assert_eq!(b.loose_tile_position, Some((Direction::West, 2)));
}

#[test]
fn rotate_loose_tile_turns_clockwise() {
    let mut b = fresh_board(7, 7, &[1], 5);
    b.loose_tile = Tile { shape: Shape::Line, orientation: Direction::North, whose_target: None };
    b.rotate_loose_tile();
    assert_eq!(b.loose_tile.orientation, Direction::East);
    assert_eq!(b.loose_tile.shape, Shape::Line);
}

#[test]
fn insert_without_staged_slot_is_a_noop() {
    let mut b = marked_board(7, 7);
    let loose_before = b.loose_tile;
    b.insert_loose_tile();
    assert_eq!(b.loose_tile, loose_before);
    for row in 0..7 {
        for col in 0..7 {
            assert_eq!(
                b.get([col, row]).whose_target,
                Some((row * 7 + col) as u64)
            );
        }
    }
}

#[test]
fn insert_from_north_shifts_column_south() {
    let mut b = marked_board(7, 7);
    b.stage_insertion(Direction::North, 0);
    b.insert_loose_tile();
    // The old loose tile enters at the north edge of column 1.
    assert_eq!(b.get([1, 0]).whose_target, Some(999));
    // Every other tile of column 1 moved one row south.
    for row in 1..7 {
        assert_eq!(
            b.get([1, row]).whose_target,
            Some(((row - 1) * 7 + 1) as u64)
        );
    }
    // The tile pushed off the south edge is the new loose tile.
    assert_eq!(b.loose_tile.whose_target, Some((6 * 7 + 1) as u64));
    // All other columns are untouched.
    for row in 0..7 {
        for col in 0..7 {
            if col != 1 {
                assert_eq!(b.get([col, row]).whose_target, Some((row * 7 + col) as u64));
            }
        }
    }
}

#[test]
fn insert_from_west_shifts_row_east() {
    let mut b = marked_board(7, 7);
    b.stage_insertion(Direction::West, 1);
    b.insert_loose_tile();
    // Lane is row 3; the old loose tile enters at the west edge.
    assert_eq!(b.get([0, 3]).whose_target, Some(999));
    for col in 1..7 {
        assert_eq!(b.get([col, 3]).whose_target, Some((3 * 7 + col - 1) as u64));
    }
    assert_eq!(b.loose_tile.whose_target, Some((3 * 7 + 6) as u64));
}

#[test]
fn insertion_conserves_the_tile_multiset() {
    for (dir, idx) in [
        (Direction::North, 1),
        (Direction::South, 2),
        (Direction::East, 0),
        (Direction::West, 2),
    ] {
        let mut b = marked_board(7, 7);
        let mut before: Vec<Option<u64>> = Vec::new();
        for row in 0..7 {
            for col in 0..7 {
                before.push(b.get([col, row]).whose_target);
            }
        }
        before.push(b.loose_tile.whose_target);
        before.sort();

        b.stage_insertion(dir, idx);
        b.insert_loose_tile();

        let mut after: Vec<Option<u64>> = Vec::new();
        for row in 0..7 {
            for col in 0..7 {
                after.push(b.get([col, row]).whose_target);
            }
        }
        after.push(b.loose_tile.whose_target);
        after.sort();

        assert_eq!(before, after);
    }
}

#[test]
fn insertion_never_alters_the_corners() {
    for dir in [Direction::North, Direction::South, Direction::East, Direction::West] {
        for idx in 0..3 {
            let mut b = marked_board(7, 7);
            let corners_before: Vec<Tile> =
                [[0, 0], [6, 0], [0, 6], [6, 6]].iter().map(|&c| *b.get(c)).collect();
            b.stage_insertion(dir, idx);
            b.insert_loose_tile();
            let corners_after: Vec<Tile> =
                [[0, 0], [6, 0], [0, 6], [6, 6]].iter().map(|&c| *b.get(c)).collect();
            assert_eq!(corners_before, corners_after);
        }
    }
}

#[test]
fn reachability_always_contains_the_start() {
    let b = fresh_board(7, 7, &[1], 21);
    for row in 0..7 {
        for col in 0..7 {
            assert!(b.reachable_coords((row, col)).contains(&(row, col)));
        }
    }
}

#[test]
fn walled_board_isolates_the_corner() {
    let b = walled_board(5, 5);
    let r = b.reachable_coords((0, 0));
    assert_eq!(r.len(), 1);
    assert!(r.contains(&(0, 0)));
}

#[test]
fn one_hop_connectivity_is_mutual() {
    let mut b = walled_board(5, 5);
    b.set([1, 2], Tile { shape: Shape::Line, orientation: Direction::East, whose_target: None });
    b.set([2, 2], Tile { shape: Shape::Line, orientation: Direction::East, whose_target: None });
    assert!(b.reachable_coords((2, 1)).contains(&(2, 2)));
    assert!(b.reachable_coords((2, 2)).contains(&(2, 1)));
}

#[test]
fn one_way_passage_does_not_connect() {
    let mut b = walled_board(5, 5);
    // (2,1) opens east toward (2,2), but (2,2) runs north-south: no passage back.
    b.set([1, 2], Tile { shape: Shape::Line, orientation: Direction::East, whose_target: None });
    b.set([2, 2], Tile { shape: Shape::Line, orientation: Direction::North, whose_target: None });
    assert!(!b.reachable_coords((2, 1)).contains(&(2, 2)));
    assert!(!b.reachable_coords((2, 2)).contains(&(2, 1)));
}

#[test]
fn corner_connects_to_straight_tile_iff_it_opens_back() {
    // The bottom-left corner is an L opening north and east.  A straight
    // east-west tile beside it opens west, so the two connect.
    let mut b = walled_board(5, 5);
    b.set([1, 4], Tile { shape: Shape::Line, orientation: Direction::East, whose_target: None });
    let r = b.reachable_coords((4, 0));
    assert!(r.contains(&(4, 1)));

    // Turned a quarter, the straight tile runs north-south and no longer
    // opens toward the corner: the cells fall apart.
    let mut b = walled_board(5, 5);
    b.set([1, 4], Tile { shape: Shape::Line, orientation: Direction::North, whose_target: None });
    let r = b.reachable_coords((4, 0));
    assert!(!r.contains(&(4, 1)));
    assert_eq!(r.len(), 1);
}

#[test]
fn reachable_set_is_a_closure() {
    let mut b = walled_board(5, 5);
    // A little cross-shaped component around (2,2).
    b.set([2, 2], Tile { shape: Shape::T, orientation: Direction::North, whose_target: None });
    b.set([1, 2], Tile { shape: Shape::Line, orientation: Direction::East, whose_target: None });
    b.set([3, 2], Tile { shape: Shape::Line, orientation: Direction::East, whose_target: None });
    b.set([2, 1], Tile { shape: Shape::Line, orientation: Direction::North, whose_target: None });
    let from_center = b.reachable_coords((2, 2));
    assert!(from_center.contains(&(2, 1)));
    assert!(from_center.contains(&(2, 3)));
    assert!(from_center.contains(&(1, 2)));
    // Querying from any member gives the same component back.
    for member in &from_center {
        assert_eq!(b.reachable_coords(*member), from_center);
    }
}

#[test]
fn reachability_on_a_random_board_is_symmetric() {
    let b = fresh_board(7, 7, &[1], 77);
    for row in 0..7 {
        for col in 0..7 {
            for target in b.reachable_coords((row, col)) {
                assert!(b.reachable_coords(target).contains(&(row, col)));
            }
        }
    }
}

#[test]
fn set_overwrites_exactly_one_cell() {
    let mut b = marked_board(5, 5);
    b.set([3, 2], blank());
    for row in 0..5 {
        for col in 0..5 {
            if (col, row) == (3, 2) {
                assert_eq!(*b.get([3, 2]), blank());
            } else {
                assert_eq!(b.get([col, row]).whose_target, Some((row * 5 + col) as u64));
            }
        }
    }
}
