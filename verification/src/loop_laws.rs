//! What holds of every loop that a trace returns, and what a trace returns on
//! a maze that holds a proper loop.

use vstd::prelude::*;
use crate::grid::{GridView, Position, neighbor_offsets};
use crate::tile::{Direction, MazeError, Tile};
use crate::walk::{
    arrivals,
    closed_loop,
    crowded,
    is_start,
    links_from,
    meeting,
    round_limit,
    step,
    together,
    trace,
    trace_from,
    walker_at,
    walker_count,
};
use crate::tracer::{lemma_alive_before, lemma_meeting_found, lemma_start_unique};

verus! {

/// `p` and `q` are next to each other in a row or in a column.
pub open spec fn adjacent(p: Position, q: Position) -> bool {
    ||| p.0 == q.0 && (p.1 + 1 == q.1 || q.1 + 1 == p.1)
    ||| p.1 == q.1 && (p.0 + 1 == q.0 || q.0 + 1 == p.0)
}

/// The tile at `p` has an end that leads to `q`.
pub open spec fn leads_to(maze: GridView<Tile>, p: Position, q: Position) -> bool {
    match links_from(maze, p, maze.at(p)) {
        Some((c1, c2)) => c1 == Some(q) || c2 == Some(q),
        None => false,
    }
}

/// The tiles at `p` and `q` are joined: each leads to the other. A start tile
/// counts as leading wherever its neighbour needs it to, since its shape is not
/// written down.
pub open spec fn joined(maze: GridView<Tile>, p: Position, q: Position) -> bool {
    &&& maze.at(p) == Tile::Start || leads_to(maze, p, q)
    &&& maze.at(q) == Tile::Start || leads_to(maze, q, p)
}

/// Cell `t` of `cells` is a pipe that joins the cell before it to the cell after
/// it: a walker that comes from the one moves on to the other.
pub open spec fn pipe_at(maze: GridView<Tile>, cells: Seq<Position>, t: int) -> bool {
    step(maze, cells[t - 1], cells[t]) == Some(cells[t + 1])
}

/// Every cell of `cells` but the first and the last is a pipe that joins the
/// cell before it to the cell after it.
pub open spec fn chained(maze: GridView<Tile>, cells: Seq<Position>) -> bool {
    forall|t: int| 0 < t < cells.len() - 1 ==> #[trigger] pipe_at(maze, cells, t)
}

/// A direction moves a cell to a cell next to it.
pub proof fn lemma_shifted_adjacent(maze: GridView<Tile>, p: Position, d: Direction)
    requires
        maze.wf(),
    ensures
        maze.shifted(p, d.delta()) matches Some(q) ==> adjacent(p, q) && maze.has(q),
{
}

/// What one move tells: the walker stands on a pipe inside the grid, whose two
/// ends lead to the cell it came from and to the cell it goes to; these two
/// differ, and both are next to the pipe. The same pipe, entered from the other
/// side, leads back.
pub proof fn lemma_step(maze: GridView<Tile>, from: Position, posn: Position)
    requires
        maze.wf(),
        step(maze, from, posn) is Some,
    ensures
        maze.at(posn).links() is Some,
        maze.at(posn) != Tile::Start,
        step(maze, from, posn)->0 != from,
        step(maze, step(maze, from, posn)->0, posn) == Some(from),
        leads_to(maze, posn, from),
        leads_to(maze, posn, step(maze, from, posn)->0),
        adjacent(posn, from),
        adjacent(posn, step(maze, from, posn)->0),
        maze.has(from),
        maze.has(step(maze, from, posn)->0),
{
    reveal(step);
    let (d1, d2) = maze.at(posn).links()->0;
    lemma_shifted_adjacent(maze, posn, d1);
    lemma_shifted_adjacent(maze, posn, d2);
}

/// A pipe has only two ends: two moves through one cell go the same way or
/// opposite ways.
pub proof fn lemma_two_ways(
    maze: GridView<Tile>,
    posn: Position,
    a: Position,
    b: Position,
)
    requires
        maze.wf(),
        step(maze, a, posn) is Some,
        step(maze, b, posn) is Some,
    ensures
        (a == b && step(maze, a, posn) == step(maze, b, posn)) || (step(maze, a, posn) == Some(b)
            && step(maze, b, posn) == Some(a)),
{
    reveal(step);
    lemma_step(maze, a, posn);
    lemma_step(maze, b, posn);
}

/// In a chain, two places that hold the same cell and are followed by the same
/// cell are also preceded by the same cell, all the way down to the first.
proof fn lemma_chain_down(maze: GridView<Tile>, cells: Seq<Position>, x: int, y: int)
    requires
        maze.wf(),
        chained(maze, cells),
        0 <= x < y,
        y + 1 < cells.len(),
        cells[x] == cells[y],
        cells[x + 1] == cells[y + 1],
    ensures
        cells[0] == cells[y - x],
    decreases x,
{
    if x > 0 {
        assert(pipe_at(maze, cells, x));
        assert(pipe_at(maze, cells, y));
        lemma_step(maze, cells[x - 1], cells[x]);
        lemma_step(maze, cells[y - 1], cells[y]);
        lemma_chain_down(maze, cells, x - 1, y - 1);
    }
}

/// A chain does not fold back onto itself: where the cell after `x` is the
/// cell before `y`, the cells at `x` and `y` differ.
proof fn lemma_chain_fold(maze: GridView<Tile>, cells: Seq<Position>, x: int, y: int)
    requires
        maze.wf(),
        chained(maze, cells),
        0 < x < y,
        y + 1 < cells.len(),
        cells[x + 1] == cells[y - 1],
    ensures
        cells[x] != cells[y],
    decreases y - x,
{
    assert(pipe_at(maze, cells, x));
    assert(pipe_at(maze, cells, y));
    lemma_step(maze, cells[x - 1], cells[x]);
    lemma_step(maze, cells[y - 1], cells[y]);
    if y - x == 1 {
    } else if y - x == 2 {
        let c = x + 1;
        assert(pipe_at(maze, cells, c));
        lemma_step(maze, cells[c - 1], cells[c]);
    } else if cells[x] == cells[y] {
        let u = x + 1;
        let v = y - 1;
        assert(pipe_at(maze, cells, u));
        assert(pipe_at(maze, cells, v));
        lemma_step(maze, cells[u - 1], cells[u]);
        lemma_step(maze, cells[v - 1], cells[v]);
        assert(step(maze, cells[y], cells[v]) == Some(cells[v - 1]));
        assert(cells[u + 1] == cells[v - 1]);
        lemma_chain_fold(maze, cells, u, v);
    }
}

/// A chain that begins on a start tile visits no cell twice, except that its
/// last cell may be one that it has visited before.
pub proof fn lemma_chain_simple(maze: GridView<Tile>, cells: Seq<Position>)
    requires
        maze.wf(),
        chained(maze, cells),
        cells.len() >= 1,
        maze.at(cells[0]) == Tile::Start,
    ensures
        forall|x: int, y: int|
            0 <= x < y < cells.len() - 1 ==> #[trigger] cells[x] != #[trigger] cells[y],
{
    assert forall|x: int, y: int| 0 <= x < y < cells.len() - 1 implies #[trigger] cells[x]
        != #[trigger] cells[y] by {
        if cells[x] == cells[y] {
            assert(pipe_at(maze, cells, y));
            lemma_step(maze, cells[y - 1], cells[y]);
            if x > 0 {
                assert(pipe_at(maze, cells, x));
                lemma_two_ways(maze, cells[x], cells[x - 1], cells[y - 1]);
                if cells[x - 1] == cells[y - 1] {
                    lemma_chain_down(maze, cells, x - 1, y - 1);
                    let d = y - x;
                    assert(pipe_at(maze, cells, d));
                    lemma_step(maze, cells[d - 1], cells[d]);
                } else {
                    lemma_chain_fold(maze, cells, x, y);
                }
            }
        }
    }
}

/// Walkers `i` and `j`, with `j` the earlier one, arrive on one cell after `m`
/// moves, and `path` is the loop that this closes.
pub open spec fn closes(
    maze: GridView<Tile>,
    start: Position,
    i: int,
    j: int,
    m: nat,
    path: Seq<Position>,
) -> bool {
    &&& 0 <= j < i < walker_count()
    &&& m >= 2
    &&& together(arrivals(maze, start, m), i, j)
    &&& !crowded(arrivals(maze, start, m), i, j)
    &&& path == closed_loop(maze, start, i, j, m)
}

/// Where a trace succeeds, two walkers have met: the result names the number of
/// moves both had made and the loop they close, and no two walkers met after
/// fewer moves.
pub proof fn lemma_trace_meets(maze: GridView<Tile>, start: Position, k: nat) -> (w: (int, int))
    requires
        k >= 1,
        trace_from(maze, start, k) is Ok,
    ensures
        trace_from(maze, start, k)->Ok_0.0 > k,
        closes(
            maze,
            start,
            w.0,
            w.1,
            trace_from(maze, start, k)->Ok_0.0,
            trace_from(maze, start, k)->Ok_0.1,
        ),
        forall|m: nat|
            k < m < trace_from(maze, start, k)->Ok_0.0 ==> meeting(
                #[trigger] arrivals(maze, start, m),
            ) is None,
    decreases round_limit(maze) + 1 - k,
{
    let k1 = k + 1;
    let ps = arrivals(maze, start, k1);
    match meeting(ps) {
        Some((i, j)) => {
            lemma_meeting_found(ps, ps.len() as int);
            (i, j)
        },
        None => {
            let w = lemma_trace_meets(maze, start, k1);
            assert forall|m: nat| k < m < trace_from(maze, start, k)->Ok_0.0 implies meeting(
                #[trigger] arrivals(maze, start, m),
            ) is None by {
                if m == k1 {
                } else {
                    assert(k1 < m);
                }
            }
            w
        },
    }
}

/// The trail of a walker is a chain.
pub proof fn lemma_trail_chained(maze: GridView<Tile>, start: Position, i: int, m: nat, t: nat)
    requires
        walker_at(maze, start, i, m) is Some,
        0 < t < m,
    ensures
        walker_at(maze, start, i, (t - 1) as nat) is Some,
        walker_at(maze, start, i, t) is Some,
        walker_at(maze, start, i, t + 1) is Some,
        step(
            maze,
            walker_at(maze, start, i, (t - 1) as nat)->0,
            walker_at(maze, start, i, t)->0,
        ) == walker_at(maze, start, i, t + 1),
{
    lemma_alive_before(maze, start, i, m, (t - 1) as nat);
    lemma_alive_before(maze, start, i, m, t);
    lemma_alive_before(maze, start, i, m, t + 1);
}

/// The first move of a walker takes it to a cell next to the start.
pub proof fn lemma_first_move(maze: GridView<Tile>, start: Position, i: int)
    requires
        maze.wf(),
        walker_at(maze, start, i, 1) is Some,
    ensures
        adjacent(start, walker_at(maze, start, i, 1)->0),
        maze.has(walker_at(maze, start, i, 1)->0),
{
}

/// The shape of every loop that a trace returns. The path is closed: it begins
/// and ends on the start tile, and twice the number of moves lie between.
/// Every cell of it lies inside the grid, and each is next to the one that
/// follows. Every cell of it but the start and the meeting point, which lies
/// half way, is a pipe that joins the cell before it to the cell after it; and
/// the two cells around the meeting point are pipes that lead to it.
pub proof fn lemma_loop_shape(maze: GridView<Tile>)
    requires
        maze.wf(),
        trace(maze) is Ok,
    ensures
        ({
            let (steps, path) = trace(maze)->Ok_0;
            &&& steps >= 2
            &&& path.len() == 2 * steps + 1
            &&& is_start(maze, path[0])
            &&& path.last() == path[0]
            &&& forall|t: int| 0 <= t < path.len() ==> maze.has(#[trigger] path[t])
            &&& forall|t: int, u: int|
                0 <= t && u == t + 1 && u < path.len() ==> adjacent(
                    #[trigger] path[t],
                    #[trigger] path[u],
                )
            &&& forall|t: int| 0 < t < 2 * steps && t != steps ==> #[trigger] pipe_at(maze, path, t)
            &&& leads_to(maze, path[steps - 1], path[steps as int])
            &&& leads_to(maze, path[steps as int + 1], path[steps as int])
        }),
{
    let start = choose|p: Position| is_start(maze, p);
    let (steps, path) = trace(maze)->Ok_0;
    let (i, j) = lemma_trace_meets(maze, start, 1);
    let m = steps;
    assert(walker_at(maze, start, i, m) is Some);
    assert(walker_at(maze, start, i, m) == walker_at(maze, start, j, m));
    let meet = walker_at(maze, start, i, m)->0;
    assert(path[m as int] == meet);
    assert forall|t: int| 0 < t < 2 * m && t != m implies #[trigger] pipe_at(maze, path, t) by {
        if t < m {
            lemma_trail_chained(maze, start, i, m, t as nat);
        } else {
            let u = (2 * m - t) as nat;
            lemma_trail_chained(maze, start, j, m, u);
            assert(path[t - 1] == walker_at(maze, start, j, u + 1)->0);
            assert(path[t + 1] == walker_at(maze, start, j, (u - 1) as nat)->0);
            lemma_step(maze, path[t + 1], path[t]);
        }
    }
    assert forall|t: int, u: int| 0 <= t && u == t + 1 && u < path.len() implies adjacent(
        #[trigger] path[t],
        #[trigger] path[u],
    ) by {
        if t == 0 {
            lemma_alive_before(maze, start, i, m, 1);
            lemma_first_move(maze, start, i);
        } else if t < m {
            lemma_trail_chained(maze, start, i, m, t as nat);
            lemma_step(maze, path[t - 1], path[t]);
        } else if t == m {
            let u = (m - 1) as nat;
            lemma_trail_chained(maze, start, j, m, u);
            assert(path[t + 1] == walker_at(maze, start, j, u)->0);
            lemma_step(maze, walker_at(maze, start, j, (u - 1) as nat)->0, path[t + 1]);
        } else if t < 2 * m - 1 {
            let u = (2 * m - t) as nat;
            lemma_trail_chained(maze, start, j, m, u);
            assert(path[t + 1] == walker_at(maze, start, j, (u - 1) as nat)->0);
            lemma_step(maze, path[t + 1], path[t]);
        } else {
            lemma_alive_before(maze, start, j, m, 1);
            lemma_first_move(maze, start, j);
        }
    }
    assert forall|t: int| 0 <= t < path.len() implies maze.has(#[trigger] path[t]) by {
        if t == 0 || t == 2 * m {
        } else if t <= m {
            lemma_alive_before(maze, start, i, m, t as nat);
            crate::tracer::lemma_walker_in_grid(maze, start, i, t as nat);
        } else {
            let u = (2 * m - t) as nat;
            lemma_alive_before(maze, start, j, m, u);
            crate::tracer::lemma_walker_in_grid(maze, start, j, u);
        }
    }
    let a = (m - 1) as nat;
    lemma_trail_chained(maze, start, i, m, a);
    lemma_step(maze, path[a - 1], path[a as int]);
    lemma_trail_chained(maze, start, j, m, a);
    assert(path[m as int + 1] == walker_at(maze, start, j, a)->0);
    lemma_step(maze, walker_at(maze, start, j, (a - 1) as nat)->0, path[m as int + 1]);
}

/// A loop whose meeting point closes it is a simple cycle of joined tiles. If
/// the tile at the meeting point is a pipe that joins the cell before it on
/// the path to the cell after it, then the path visits no cell twice, but for
/// ending on the start where it began, and the tiles of every two cells that
/// follow each other on it are joined.
pub proof fn lemma_loop_simple(maze: GridView<Tile>)
    requires
        maze.wf(),
        trace(maze) is Ok,
        ({
            let (steps, path) = trace(maze)->Ok_0;
            step(maze, path[steps - 1], path[steps as int]) == Some(path[steps as int + 1])
        }),
    ensures
        ({
            let (steps, path) = trace(maze)->Ok_0;
            &&& forall|x: int, y: int|
                0 <= x < y < path.len() - 1 ==> #[trigger] path[x] != #[trigger] path[y]
            &&& forall|t: int, u: int|
                0 <= t && u == t + 1 && u < path.len() ==> joined(
                    maze,
                    #[trigger] path[t],
                    #[trigger] path[u],
                )
        }),
{
    let (steps, path) = trace(maze)->Ok_0;
    lemma_loop_shape(maze);
    assert(chained(maze, path));
    lemma_chain_simple(maze, path);
    assert forall|t: int, u: int| 0 <= t && u == t + 1 && u < path.len() implies joined(
        maze,
        #[trigger] path[t],
        #[trigger] path[u],
    ) by {
        if t > 0 {
            assert(pipe_at(maze, path, t));
            lemma_step(maze, path[t - 1], path[t]);
        }
        if t + 1 < path.len() - 1 {
            let c = t + 1;
            assert(pipe_at(maze, path, c));
            lemma_step(maze, path[c - 1], path[c]);
        }
    }
}

/// A walker never makes more moves than the grid has cells: the cells that it
/// has left behind all differ. So the round limit of a trace stops no walker
/// that would have moved on.
pub proof fn lemma_walker_stops(maze: GridView<Tile>, start: Position, i: int, t: nat)
    requires
        maze.wf(),
        is_start(maze, start),
        walker_at(maze, start, i, t) is Some,
    ensures
        t <= round_limit(maze),
{
    let cells = crate::walk::trail(maze, start, i, t);
    assert forall|u: int| 0 < u < cells.len() - 1 implies #[trigger] pipe_at(maze, cells, u) by {
        lemma_trail_chained(maze, start, i, t, u as nat);
    }
    lemma_chain_simple(maze, cells);
    let behind = cells.take(t as int);
    assert forall|x: int| 0 <= x < behind.len() implies maze.has(#[trigger] behind[x]) by {
        lemma_alive_before(maze, start, i, t, x as nat);
        crate::tracer::lemma_walker_in_grid(maze, start, i, x as nat);
    }
    assert forall|x: int, y: int| 0 <= x < behind.len() && 0 <= y < behind.len() && x != y implies behind[x]
        != behind[y] by {
        if x < y {
            assert(cells[x] != cells[y]);
        } else {
            assert(cells[y] != cells[x]);
        }
    }
    maze.lemma_distinct_cells_fit(behind);
}

/// A trace that finds no cycle from round `k` on has seen no two walkers meet
/// in any of its rounds.
proof fn lemma_unmet(maze: GridView<Tile>, start: Position, k: nat, m: nat)
    requires
        k >= 1,
        trace_from(maze, start, k) == Err::<(nat, Seq<Position>), MazeError>(
            MazeError::NoCycleFound,
        ),
        k < m <= round_limit(maze) + 1,
    ensures
        meeting(arrivals(maze, start, m)) is None,
    decreases m - k,
{
    let k1 = k + 1;
    if m > k1 {
        lemma_unmet(maze, start, k1, m);
    }
}

/// Where a trace finds no cycle, no two walkers ever meet, however long they
/// are left to walk: the round limit hides no meeting.
pub proof fn lemma_no_cycle_no_meeting(maze: GridView<Tile>, start: Position, m: nat)
    requires
        maze.wf(),
        is_start(maze, start),
        trace_from(maze, start, 1) == Err::<(nat, Seq<Position>), MazeError>(
            MazeError::NoCycleFound,
        ),
        m >= 2,
    ensures
        meeting(arrivals(maze, start, m)) is None,
{
    if m <= round_limit(maze) + 1 {
        lemma_unmet(maze, start, 1, m);
    } else {
        let ps = arrivals(maze, start, m);
        assert forall|i: int| 0 <= i < ps.len() implies ps[i] is None by {
            if walker_at(maze, start, i, m) is Some {
                lemma_walker_stops(maze, start, i, m);
            }
        }
        crate::tracer::lemma_nobody_no_meeting(ps, ps.len() as int);
    }
}

} // verus!
