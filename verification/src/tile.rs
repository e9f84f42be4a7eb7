//! Tile, direction and shape primitives of the maze board.

use vstd::prelude::*;
use rand::Rng;

verus! {

/// Identifier of a player.  Token bookkeeping is keyed by ascending id.
pub type PlayerID = u64;

/// A participating player; only the id is load-bearing for the board rules.
#[derive(Clone, Copy, PartialEq, Eq, Debug)]
pub struct Player {
    pub id: PlayerID,
}

/// One of the four cardinal directions.  A direction both names an edge of
/// the board and acts as a unit step on `(row, col)` coordinates.
#[derive(Clone, Copy, PartialEq, Eq, Structural, Debug)]
pub enum Direction {
    North,
    South,
    East,
    West,
}

impl Direction {
    /// The opposite direction, as a specification-level function.
    pub open spec fn spec_opposite(self) -> Direction {
        match self {
            Direction::North => Direction::South,
            Direction::South => Direction::North,
            Direction::East => Direction::West,
            Direction::West => Direction::East,
        }
    }

    /// The next direction clockwise, as a specification-level function.
    pub open spec fn spec_clockwise(self) -> Direction {
        match self {
            Direction::North => Direction::East,
            Direction::East => Direction::South,
            Direction::South => Direction::West,
            Direction::West => Direction::North,
        }
    }

    /// The opposite direction; used to test that a passage is mutual.
    pub fn opposite(self) -> (r: Direction)
        ensures
            r == self.spec_opposite(),
    {
        match self {
            Direction::North => Direction::South,
            Direction::South => Direction::North,
            Direction::East => Direction::West,
            Direction::West => Direction::East,
        }
    }

    /// The next direction clockwise; used to orient corner pieces.
    pub fn clockwise(self) -> (r: Direction)
        ensures
            r == self.spec_clockwise(),
    {
        match self {
            Direction::North => Direction::East,
            Direction::East => Direction::South,
            Direction::South => Direction::West,
            Direction::West => Direction::North,
        }
    }
}

/// Taking the opposite direction is an involution.
pub proof fn lemma_opposite_involution(d: Direction)
    ensures
        d.spec_opposite().spec_opposite() == d,
{
}

/// The passage pattern of a tile before rotation is applied.
#[derive(Clone, Copy, PartialEq, Eq, Structural, Debug)]
pub enum Shape {
    /// A straight passage through two opposite edges.
    Line,
    /// A corner passage bending between two perpendicular edges.
    L,
    /// A three-way junction open to all edges but one.
    T,
    /// A solid tile with no passages at all.
    Blank,
}

/// A single maze cell: a passage shape plus a rotation, and optionally the
/// mark that the cell is some player's goal.
#[derive(Clone, Copy, PartialEq, Eq, Debug)]
pub struct Tile {
    pub shape: Shape,
    pub orientation: Direction,
    /// The player whose goal cell this tile is, if any.
    pub whose_target: Option<PlayerID>,
}

impl Tile {
    /// Whether this tile permits passage through its edge in direction `d`.
    ///
    /// The set of open directions is a pure function of shape and
    /// orientation: a line opens its orientation and the opposite; an L opens
    /// its orientation and the next direction clockwise; a T opens everything
    /// but the opposite of its orientation; a blank tile opens nothing.
    pub open spec fn spec_has_path(self, d: Direction) -> bool {
        match self.shape {
            Shape::Line => d == self.orientation || d == self.orientation.spec_opposite(),
            Shape::L => d == self.orientation || d == self.orientation.spec_clockwise(),
            Shape::T => d != self.orientation.spec_opposite(),
            Shape::Blank => false,
        }
    }

    /// Whether this tile permits passage in direction `d`.
    pub fn has_path(&self, d: Direction) -> (r: bool)
        ensures
            r == self.spec_has_path(d),
    {
        match self.shape {
            Shape::Line => d == self.orientation || d == self.orientation.opposite(),
            Shape::L => d == self.orientation || d == self.orientation.clockwise(),
            Shape::T => !(d == self.orientation.opposite()),
            Shape::Blank => false,
        }
    }

    /// The set of directions this tile permits passage through, as a list
    /// without duplicates.
    pub fn paths(&self) -> (r: Vec<Direction>)
        ensures
            r@.no_duplicates(),
            forall|d: Direction| r@.contains(d) <==> self.spec_has_path(d),
    {
        broadcast use vstd::seq_lib::lemma_seq_contains_after_push;

        let mut r: Vec<Direction> = Vec::new();
        if self.has_path(Direction::North) {
            r.push(Direction::North);
        }
        if self.has_path(Direction::South) {
            r.push(Direction::South);
        }
        if self.has_path(Direction::East) {
            r.push(Direction::East);
        }
        if self.has_path(Direction::West) {
            r.push(Direction::West);
        }
        proof {
            assert forall|d: Direction| r@.contains(d) implies self.spec_has_path(d) by {
                let i = choose|i: int| 0 <= i < r@.len() && r@[i] == d;
            }
        }
        r
    }

    /// Rotate this tile a quarter turn clockwise in place.
    pub fn rotate(&mut self)
        ensures
            final(self).shape == old(self).shape,
            final(self).orientation == old(self).orientation.spec_clockwise(),
            final(self).whose_target == old(self).whose_target,
    {
        self.orientation = self.orientation.clockwise();
    }

    /// The tile drawn for index `k` of the random distribution: twelve
    /// combinations, one for each playable shape and orientation.
    pub open spec fn spec_from_draw(k: int) -> Tile {
        Tile {
            shape: if k < 4 {
                Shape::Line
            } else if k < 8 {
                Shape::L
            } else {
                Shape::T
            },
            orientation: if k % 4 == 0 {
                Direction::North
            } else if k % 4 == 1 {
                Direction::East
            } else if k % 4 == 2 {
                Direction::South
            } else {
                Direction::West
            },
            whose_target: None,
        }
    }

    /// Build the tile for index `k` of the random distribution.
    pub fn from_draw(k: u32) -> (t: Tile)
        requires
            k < 12,
        ensures
            t == Tile::spec_from_draw(k as int),
    {
        let shape = if k < 4 {
            Shape::Line
        } else if k < 8 {
            Shape::L
        } else {
            Shape::T
        };
        let orientation = if k % 4 == 0 {
            Direction::North
        } else if k % 4 == 1 {
            Direction::East
        } else if k % 4 == 2 {
            Direction::South
        } else {
            Direction::West
        };
        Tile { shape, orientation, whose_target: None }
    }

    /// Sample a tile uniformly over the twelve playable shape and orientation
    /// combinations, from a caller-supplied seedable random source.
    pub fn random(rng: &mut rand::rngs::StdRng) -> (t: Tile)
        ensures
            spec_playable_tile(t),
            t.whose_target is None,
    {
        let k = draw_below(rng, 12);
        let t = Tile::from_draw(k);
        proof {
            assert(t == Tile::spec_from_draw(k as int));
        }
        t
    }
}

/// Whether `t` is one of the twelve tiles of the random distribution.
pub open spec fn spec_playable_tile(t: Tile) -> bool {
    exists|k: int| 0 <= k < 12 && t == #[trigger] Tile::spec_from_draw(k)
}

/// The coordinate one unit step from `(row, col)` in direction `d`.
pub open spec fn spec_step(row: int, col: int, d: Direction) -> (int, int) {
    match d {
        Direction::North => (row - 1, col),
        Direction::South => (row + 1, col),
        Direction::West => (row, col - 1),
        Direction::East => (row, col + 1),
    }
}

/// Adds the unit vector for `dir` to a `(row, col)` pair.  Callers must
/// pre-validate bounds: stepping off the grid must not be attempted.
pub fn step(pos: (usize, usize), dir: Direction) -> (r: (usize, usize))
    requires
        match dir {
            Direction::North => pos.0 > 0,
            Direction::South => pos.0 < usize::MAX,
            Direction::West => pos.1 > 0,
            Direction::East => pos.1 < usize::MAX,
        },
    ensures
        (r.0 as int, r.1 as int) == spec_step(pos.0 as int, pos.1 as int, dir),
{
    match dir {
        Direction::North => (pos.0 - 1, pos.1),
        Direction::South => (pos.0 + 1, pos.1),
        Direction::West => (pos.0, pos.1 - 1),
        Direction::East => (pos.0, pos.1 + 1),
    }
}

/// A seedable random number generator of the `rand` crate, carried opaquely.
#[verifier::external_type_specification]
#[verifier::external_body]
pub struct ExStdRng(rand::rngs::StdRng);

/// Relies on `rand::Rng::gen_range` over the half-open range `0..n`: it
/// returns a value of that range and panics only when the range is empty.
/// Nothing is assumed about which value comes back.
#[verifier::external_body]
pub(crate) fn draw_below(rng: &mut rand::rngs::StdRng, n: u32) -> (r: u32)
    requires
        n > 0,
    ensures
        r < n,
{
    rng.gen_range(0..n)
}

} // verus!
