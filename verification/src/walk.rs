//! How a walker moves through the maze, and the mathematical model of a whole
//! trace: where each walker is after each number of moves, when two of them
//! meet, and the loop that a meeting closes.

use vstd::prelude::*;
use crate::grid::{Grid, GridView, Position, neighbor_offsets};
use crate::tile::{MazeError, Tile, connections};

verus! {

/// How many walkers leave the start: one towards each of the four cells around
/// it, in the order north, west, east, south.
pub open spec fn walker_count() -> int {
    4
}

/// The two cells that `tile`, placed at `posn`, leads to. Either may lie
/// outside the grid. `None` for a tile that joins nothing.
pub open spec fn links_from(maze: GridView<Tile>, posn: Position, tile: Tile) -> Option<
    (Option<Position>, Option<Position>),
> {
    match tile.links() {
        Some((d1, d2)) => Some((maze.shifted(posn, d1.delta()), maze.shifted(posn, d2.delta()))),
        None => None,
    }
}

/// Where a walker goes that stands on `tile` at `posn` and came from `from`:
/// out through the end of the tile that it did not come in by. `None` when the
/// tile does not lead back to `from`, or leads out of the grid.
pub open spec fn next_from(maze: GridView<Tile>, from: Position, posn: Position, tile: Tile) -> Option<
    Position,
> {
    match links_from(maze, posn, tile) {
        Some((c1, c2)) => if c1 == Some(from) {
            c2
        } else if c2 == Some(from) {
            c1
        } else {
            None
        },
        None => None,
    }
}

/// One move on the tiles of the grid itself: from `posn`, having come from
/// `from`.
#[verifier::opaque]
pub open spec fn step(maze: GridView<Tile>, from: Position, posn: Position) -> Option<Position> {
    next_from(maze, from, posn, maze.at(posn))
}

/// Where walker `i` stands after `k` moves, or `None` once it has run into a
/// dead end (or was never sent out, because its first cell lies outside the
/// grid). Every walker begins at `start`; its first move takes it to the cell
/// next to the start in its own direction, whatever tile lies there.
pub open spec fn walker_at(maze: GridView<Tile>, start: Position, i: int, k: nat) -> Option<Position>
    decreases k,
{
    if k == 0 {
        Some(start)
    } else if k == 1 {
        if 0 <= i < walker_count() {
            maze.shifted(start, neighbor_offsets(false)[i])
        } else {
            None
        }
    } else {
        match (walker_at(maze, start, i, (k - 2) as nat), walker_at(maze, start, i, (k - 1) as nat)) {
            (Some(from), Some(posn)) => step(maze, from, posn),
            _ => None,
        }
    }
}

/// The cells that walker `i` has stood on, from the start to its position after
/// `k` moves.
pub open spec fn trail(maze: GridView<Tile>, start: Position, i: int, k: nat) -> Seq<Position> {
    Seq::new(k + 1, |t: int| walker_at(maze, start, i, t as nat)->0)
}

/// Where each walker stands after `k` moves.
pub open spec fn arrivals(maze: GridView<Tile>, start: Position, k: nat) -> Seq<Option<Position>> {
    Seq::new(walker_count() as nat, |i: int| walker_at(maze, start, i, k))
}

/// Walkers `i` and `j` stand on one cell.
pub open spec fn together(ps: Seq<Option<Position>>, i: int, j: int) -> bool {
    0 <= i < ps.len() && 0 <= j < ps.len() && ps[i] is Some && ps[i] == ps[j]
}

/// The first walker before `bound` that stands where walker `i` stands.
pub open spec fn partner(ps: Seq<Option<Position>>, i: int, bound: int) -> Option<int>
    decreases bound,
{
    if bound <= 0 {
        None
    } else {
        match partner(ps, i, bound - 1) {
            Some(j) => Some(j),
            None => if together(ps, i, bound - 1) {
                Some(bound - 1)
            } else {
                None
            },
        }
    }
}

/// The first meeting among the walkers before `n`: the first walker `i`, in
/// order, that stands where an earlier one stands, and the first such earlier
/// walker `j`.
pub open spec fn meeting_before(ps: Seq<Option<Position>>, n: int) -> Option<(int, int)>
    decreases n,
{
    if n <= 0 {
        None
    } else {
        match meeting_before(ps, n - 1) {
            Some(m) => Some(m),
            None => match partner(ps, n - 1, n - 1) {
                Some(j) => Some((n - 1, j)),
                None => None,
            },
        }
    }
}

/// The first meeting among all walkers, as `(i, j)` with `j < i`.
pub open spec fn meeting(ps: Seq<Option<Position>>) -> Option<(int, int)> {
    meeting_before(ps, ps.len() as int)
}

/// A third walker stands where walkers `i` and `j` met.
pub open spec fn crowded(ps: Seq<Option<Position>>, i: int, j: int) -> bool {
    exists|l: int| 0 <= l < ps.len() && l != i && l != j && #[trigger] together(ps, l, i)
}

/// The loop closed by walkers `i` and `j` meeting after `m` moves: the trail of
/// `i` from the start to the meeting point, then the trail of `j` backwards
/// from just before the meeting point to the start.
pub open spec fn closed_loop(maze: GridView<Tile>, start: Position, i: int, j: int, m: nat) -> Seq<
    Position,
> {
    Seq::new(
        2 * m + 1,
        |t: int|
            if t <= m {
                walker_at(maze, start, i, t as nat)->0
            } else {
                walker_at(maze, start, j, (2 * m - t) as nat)->0
            },
    )
}

/// The most rounds that a trace runs: one for every cell of the grid.
pub open spec fn round_limit(maze: GridView<Tile>) -> nat {
    maze.rows() * maze.cols()
}

/// The outcome of the rounds from round `k` on, when no two walkers have met
/// before. In round `k` every walker that still stands makes move `k + 1`. If
/// two of them arrive on one cell the trace ends: with the number of moves made
/// and the loop, or with `AmbiguousMeeting` if a third walker arrived there
/// too. Otherwise the next round follows, up to the round limit.
pub open spec fn trace_from(maze: GridView<Tile>, start: Position, k: nat) -> Result<
    (nat, Seq<Position>),
    MazeError,
>
    decreases round_limit(maze) + 1 - k,
{
    if k > round_limit(maze) {
        Err(MazeError::NoCycleFound)
    } else {
        match meeting(arrivals(maze, start, k + 1)) {
            Some((i, j)) => if crowded(arrivals(maze, start, k + 1), i, j) {
                Err(MazeError::AmbiguousMeeting)
            } else {
                Ok((k + 1, closed_loop(maze, start, i, j, k + 1)))
            },
            None => trace_from(maze, start, k + 1),
        }
    }
}

/// `p` is the first start tile of the grid in row-major order.
pub open spec fn is_start(maze: GridView<Tile>, p: Position) -> bool {
    &&& maze.has(p)
    &&& maze.at(p) == Tile::Start
    &&& forall|q: Position|
        maze.has(q) && crate::grid::precedes(q, p) ==> #[trigger] maze.at(q) != Tile::Start
}

/// The outcome of tracing the loop of `maze`: the number of moves from the
/// start to the meeting point, and the loop as a closed path from the start
/// back to the start.
pub open spec fn trace(maze: GridView<Tile>) -> Result<(nat, Seq<Position>), MazeError> {
    if exists|p: Position| is_start(maze, p) {
        trace_from(maze, choose|p: Position| is_start(maze, p), 1)
    } else {
        Err(MazeError::MissingStart)
    }
}

/// The positions that `tile`, placed at `posn`, leads to, one slot for each of
/// its two directions; a slot is `None` where that direction leaves the grid.
/// `None` for ground and for the start tile.
pub fn get_connections(grid: &Grid<Tile>, posn: &Position, tile: &Tile) -> (r: Option<
    [Option<Position>; 2],
>)
    ensures
        match r {
            Some(a) => links_from(grid@, *posn, *tile) == Some((a[0], a[1])),
            None => links_from(grid@, *posn, *tile) is None,
        },
{
    match connections(*tile) {
        Some((d1, d2)) => {
            let c1 = grid.apply_offset(posn, &d1.offset());
            let c2 = grid.apply_offset(posn, &d2.offset());
            Some([c1, c2])
        },
        None => None,
    }
}

/// Whether `slot` holds the position `p`.
pub fn holds(slot: &Option<Position>, p: &Position) -> (r: bool)
    ensures
        r == (*slot == Some(*p)),
{
    match slot {
        Some(q) => q.0 == p.0 && q.1 == p.1,
        None => false,
    }
}

/// Where a walker goes next that stands on `tile` at `posn` and came from
/// `from`: through the end of the tile that does not lead back to `from`.
/// `None` when neither end leads back to `from`, when the way on leaves the
/// grid, or when the tile joins nothing.
pub fn get_next_posn(grid: &Grid<Tile>, from: &Position, posn: &Position, tile: &Tile) -> (r:
    Option<Position>)
    ensures
        r == next_from(grid@, *from, *posn, *tile),
{
    match get_connections(grid, posn, tile) {
        Some(c) => {
            let c1 = c[0];
            let c2 = c[1];
            if holds(&c1, from) {
                c2
            } else if holds(&c2, from) {
                c1
            } else {
                None
            }
        },
        None => None,
    }
}

} // verus!
