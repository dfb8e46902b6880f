//! The alphabet of the pipe maze: directions, tiles, and which ways a tile
//! connects.

use vstd::prelude::*;

verus! {

/// What can go wrong between the text of a maze and its loop.
#[derive(Clone, Copy, Debug, PartialEq, Eq, Structural)]
pub enum MazeError {
    /// Two rows of the input differ in length.
    MalformedGrid,
    /// The input holds a character that is no tile.
    UnknownTile,
    /// The maze has no start tile.
    MissingStart,
    /// No two walkers ever met: every walker ran into a dead end, or the
    /// round limit was reached.
    NoCycleFound,
    /// More than two walkers arrived at one position in the same round.
    AmbiguousMeeting,
}

/// One of the four ways to leave a cell. Declared in the order in which walkers
/// are sent out from the start.
#[derive(Clone, Copy, Debug, PartialEq, Eq, Structural)]
pub enum Direction {
    North,
    West,
    East,
    South,
}

impl Direction {
    /// The step that the direction makes: rows first, then columns.
    pub open spec fn delta(self) -> (i32, i32) {
        match self {
            Direction::North => (-1i32, 0i32),
            Direction::West => (0i32, -1i32),
            Direction::East => (0i32, 1i32),
            Direction::South => (1i32, 0i32),
        }
    }

    /// The step that the direction makes: rows first, then columns.
    pub fn offset(self) -> (r: (i32, i32))
        ensures
            r == self.delta(),
    {
        match self {
            Direction::North => (-1, 0),
            Direction::West => (0, -1),
            Direction::East => (0, 1),
            Direction::South => (1, 0),
        }
    }
}

/// One cell of the maze.
#[derive(Clone, Copy, Debug)]
pub enum Tile {
    /// `|`, joining north and south.
    Vertical,
    /// `-`, joining east and west.
    Horizontal,
    /// `L`, joining north and east.
    NorthEast,
    /// `J`, joining north and west.
    NorthWest,
    /// `7`, joining south and west.
    SouthWest,
    /// `F`, joining south and east.
    SouthEast,
    /// `.`, joining nothing.
    Ground,
    /// `S`, where the loop starts; its shape is not written down.
    Start,
}

impl PartialEq for Tile {
    fn eq(&self, other: &Tile) -> (r: bool) {
        match (*self, *other) {
            (Tile::Vertical, Tile::Vertical) => true,
            (Tile::Horizontal, Tile::Horizontal) => true,
            (Tile::NorthEast, Tile::NorthEast) => true,
            (Tile::NorthWest, Tile::NorthWest) => true,
            (Tile::SouthWest, Tile::SouthWest) => true,
            (Tile::SouthEast, Tile::SouthEast) => true,
            (Tile::Ground, Tile::Ground) => true,
            (Tile::Start, Tile::Start) => true,
            _ => false,
        }
    }
}

impl Eq for Tile {

}

impl vstd::std_specs::cmp::PartialEqSpecImpl for Tile {
    open spec fn obeys_eq_spec() -> bool {
        true
    }

    open spec fn eq_spec(&self, other: &Tile) -> bool {
        *self == *other
    }
}

impl Tile {
    /// The tile that `c` stands for, if it stands for one.
    pub open spec fn of_char(c: char) -> Option<Tile> {
        if c == '|' {
            Some(Tile::Vertical)
        } else if c == '-' {
            Some(Tile::Horizontal)
        } else if c == 'L' {
            Some(Tile::NorthEast)
        } else if c == 'J' {
            Some(Tile::NorthWest)
        } else if c == '7' {
            Some(Tile::SouthWest)
        } else if c == 'F' {
            Some(Tile::SouthEast)
        } else if c == '.' {
            Some(Tile::Ground)
        } else if c == 'S' {
            Some(Tile::Start)
        } else {
            None
        }
    }

    /// The two directions that the tile joins, in the order in which a walker
    /// tries them. Ground joins nothing, and the start tile's shape is unknown.
    pub open spec fn links(self) -> Option<(Direction, Direction)> {
        match self {
            Tile::Vertical => Some((Direction::North, Direction::South)),
            Tile::Horizontal => Some((Direction::East, Direction::West)),
            Tile::NorthEast => Some((Direction::North, Direction::East)),
            Tile::NorthWest => Some((Direction::North, Direction::West)),
            Tile::SouthWest => Some((Direction::South, Direction::West)),
            Tile::SouthEast => Some((Direction::South, Direction::East)),
            Tile::Ground => None,
            Tile::Start => None,
        }
    }

    /// Reads a tile from its character; `None` for any other character.
    pub fn from_char(c: char) -> (r: Option<Tile>)
        ensures
            r == Tile::of_char(c),
    {
        if c == '|' {
            Some(Tile::Vertical)
        } else if c == '-' {
            Some(Tile::Horizontal)
        } else if c == 'L' {
            Some(Tile::NorthEast)
        } else if c == 'J' {
            Some(Tile::NorthWest)
        } else if c == '7' {
            Some(Tile::SouthWest)
        } else if c == 'F' {
            Some(Tile::SouthEast)
        } else if c == '.' {
            Some(Tile::Ground)
        } else if c == 'S' {
            Some(Tile::Start)
        } else {
            None
        }
    }
}

/// The two directions that `tile` joins, or `None` for a tile that joins
/// nothing.
pub fn connections(tile: Tile) -> (r: Option<(Direction, Direction)>)
    ensures
        r == tile.links(),
{
    match tile {
        Tile::Vertical => Some((Direction::North, Direction::South)),
        Tile::Horizontal => Some((Direction::East, Direction::West)),
        Tile::NorthEast => Some((Direction::North, Direction::East)),
        Tile::NorthWest => Some((Direction::North, Direction::West)),
        Tile::SouthWest => Some((Direction::South, Direction::West)),
        Tile::SouthEast => Some((Direction::South, Direction::East)),
        Tile::Ground => None,
        Tile::Start => None,
    }
}

/// Equality of tiles is equality of their variants.
pub proof fn lemma_tile_eq()
    ensures
        vstd::laws_eq::obeys_concrete_eq::<Tile>(),
{
    reveal(vstd::laws_eq::obeys_concrete_eq);
}

} // verus!
