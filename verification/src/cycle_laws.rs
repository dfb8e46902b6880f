//! What a trace finds on a maze that holds one proper loop through its start.

use vstd::prelude::*;
use crate::grid::{GridView, Position};
use crate::loop_laws::{
    adjacent,
    chained,
    lemma_loop_shape,
    lemma_loop_simple,
    lemma_step,
    pipe_at,
};
use crate::pipe_maze::{farthest, maze_of};
use crate::tile::{MazeError, Tile};
use crate::tracer::{lemma_meeting_found, lemma_start_unique};
use crate::walk::{
    arrivals,
    closed_loop,
    crowded,
    is_start,
    meeting,
    round_limit,
    step,
    together,
    trace,
    trace_from,
    walker_at,
    walker_count,
};

verus! {

/// The cells of `cycle`, and then its first cell once more.
pub open spec fn round_trip(cycle: Seq<Position>) -> Seq<Position> {
    cycle.push(cycle[0])
}

/// `cycle` is a loop of pipes through the start: it begins on the start tile,
/// names no cell twice, and each of its other cells is a pipe that joins the
/// cell before it to the cell after it, the last one joining on to the start.
pub open spec fn is_cycle(maze: GridView<Tile>, cycle: Seq<Position>) -> bool {
    &&& cycle.len() >= 2
    &&& is_start(maze, cycle[0])
    &&& cycle.no_duplicates()
    &&& chained(maze, round_trip(cycle))
}

/// The loop is the only way on from the start: a walker sent to any other cell
/// around the start stops there.
pub open spec fn only_way(maze: GridView<Tile>, cycle: Seq<Position>) -> bool {
    forall|l: int|
        0 <= l < walker_count() ==> match #[trigger] walker_at(maze, cycle[0], l, 1) {
            Some(p) => p == cycle[1] || p == cycle.last() || step(maze, cycle[0], p) is None,
            None => true,
        }
}

/// A walker is sent to every cell of the grid that lies next to the start.
pub proof fn lemma_neighbour_walker(maze: GridView<Tile>, start: Position, q: Position) -> (l: int)
    requires
        maze.wf(),
        maze.has(start),
        maze.has(q),
        adjacent(start, q),
    ensures
        0 <= l < walker_count(),
        walker_at(maze, start, l, 1) == Some(q),
{
    if q.0 + 1 == start.0 {
        0
    } else if q.1 + 1 == start.1 {
        1
    } else if start.1 + 1 == q.1 {
        2
    } else {
        3
    }
}

/// No two walkers are sent to the same cell.
pub proof fn lemma_walkers_apart(maze: GridView<Tile>, start: Position, a: int, b: int)
    requires
        maze.wf(),
        maze.has(start),
        a != b,
        walker_at(maze, start, a, 1) is Some,
    ensures
        walker_at(maze, start, a, 1) != walker_at(maze, start, b, 1),
{
}

/// The walker sent to the second cell of the cycle follows the cycle forwards.
pub proof fn lemma_forward(maze: GridView<Tile>, cycle: Seq<Position>, l: int, t: nat)
    requires
        maze.wf(),
        is_cycle(maze, cycle),
        walker_at(maze, cycle[0], l, 1) == Some(cycle[1]),
        t <= cycle.len(),
    ensures
        walker_at(maze, cycle[0], l, t) == Some(round_trip(cycle)[t as int]),
    decreases t,
{
    if t >= 2 {
        lemma_forward(maze, cycle, l, (t - 1) as nat);
        lemma_forward(maze, cycle, l, (t - 2) as nat);
        assert(pipe_at(maze, round_trip(cycle), t - 1));
    }
}

/// The walker sent to the last cell of the cycle follows the cycle backwards.
pub proof fn lemma_backward(maze: GridView<Tile>, cycle: Seq<Position>, l: int, t: nat)
    requires
        maze.wf(),
        is_cycle(maze, cycle),
        walker_at(maze, cycle[0], l, 1) == Some(cycle.last()),
        t <= cycle.len(),
    ensures
        walker_at(maze, cycle[0], l, t) == Some(round_trip(cycle)[cycle.len() - t]),
    decreases t,
{
    if t >= 2 {
        lemma_backward(maze, cycle, l, (t - 1) as nat);
        lemma_backward(maze, cycle, l, (t - 2) as nat);
        let closed = round_trip(cycle);
        let c = cycle.len() - t + 1;
        assert(pipe_at(maze, closed, c));
        lemma_step(maze, closed[c - 1], closed[c]);
    }
}

/// A walker that stops after its first move stays stopped.
pub proof fn lemma_stopped(maze: GridView<Tile>, start: Position, l: int, t: nat)
    requires
        walker_at(maze, start, l, 2) is None,
        t >= 2,
    ensures
        walker_at(maze, start, l, t) is None,
    decreases t,
{
    if t > 2 {
        lemma_stopped(maze, start, l, (t - 1) as nat);
    }
}

/// The two cells of the cycle next to the start are cells that walkers are sent
/// to, and they differ.
pub proof fn lemma_cycle_walkers(maze: GridView<Tile>, cycle: Seq<Position>) -> (w: (int, int))
    requires
        maze.wf(),
        is_cycle(maze, cycle),
    ensures
        0 <= w.0 < walker_count(),
        0 <= w.1 < walker_count(),
        w.0 != w.1,
        cycle.len() >= 3,
        walker_at(maze, cycle[0], w.0, 1) == Some(cycle[1]),
        walker_at(maze, cycle[0], w.1, 1) == Some(cycle.last()),
{
    let closed = round_trip(cycle);
    let n = cycle.len() as int;
    assert(pipe_at(maze, closed, 1));
    lemma_step(maze, closed[0], closed[1]);
    assert(pipe_at(maze, closed, n - 1));
    lemma_step(maze, closed[n - 2], closed[n - 1]);
    assert(closed[n] == cycle[0]);
    let a = lemma_neighbour_walker(maze, cycle[0], cycle[1]);
    let b = lemma_neighbour_walker(maze, cycle[0], cycle[n - 1]);
    (a, b)
}

/// On a maze whose only way on from the start is a cycle of `2 * k` cells, the
/// walkers that follow the cycle are the only ones that still stand after two
/// moves, and they stand together after `k` moves and not before.
proof fn lemma_cycle_arrivals(
    maze: GridView<Tile>,
    cycle: Seq<Position>,
    k: nat,
    a: int,
    b: int,
    t: nat,
)
    requires
        maze.wf(),
        is_cycle(maze, cycle),
        only_way(maze, cycle),
        cycle.len() == 2 * k,
        0 <= a < walker_count(),
        0 <= b < walker_count(),
        a != b,
        walker_at(maze, cycle[0], a, 1) == Some(cycle[1]),
        walker_at(maze, cycle[0], b, 1) == Some(cycle.last()),
        2 <= t <= k,
    ensures
        arrivals(maze, cycle[0], t).len() == walker_count(),
        arrivals(maze, cycle[0], t)[a] == Some(round_trip(cycle)[t as int]),
        arrivals(maze, cycle[0], t)[b] == Some(round_trip(cycle)[cycle.len() - t]),
        forall|l: int|
            0 <= l < walker_count() && l != a && l != b ==> (#[trigger] arrivals(
                maze,
                cycle[0],
                t,
            )[l]) is None,
        t < k ==> round_trip(cycle)[t as int] != round_trip(cycle)[cycle.len() - t],
{
    let start = cycle[0];
    lemma_forward(maze, cycle, a, t);
    lemma_backward(maze, cycle, b, t);
    assert forall|l: int| 0 <= l < walker_count() && l != a && l != b implies (#[trigger] arrivals(
        maze,
        start,
        t,
    )[l]) is None by {
        match walker_at(maze, start, l, 1) {
            Some(p) => {
                lemma_walkers_apart(maze, start, l, a);
                lemma_walkers_apart(maze, start, l, b);
                assert(step(maze, start, p) is None);
                assert(walker_at(maze, start, l, 0) == Some(start));
                assert(walker_at(maze, start, l, 2) is None);
            },
            None => {
                assert(walker_at(maze, start, l, 2) is None);
            },
        }
        lemma_stopped(maze, start, l, t);
    }
    if t < k {
        assert(cycle[t as int] != cycle[cycle.len() - t]);
    }
}

/// The rounds of the trace on such a maze, from round `r` on, end after `k`
/// moves with the loop of the two walkers that follow the cycle.
proof fn lemma_cycle_rounds(
    maze: GridView<Tile>,
    cycle: Seq<Position>,
    k: nat,
    a: int,
    b: int,
    r: nat,
)
    requires
        maze.wf(),
        is_cycle(maze, cycle),
        only_way(maze, cycle),
        cycle.len() == 2 * k,
        0 <= a < walker_count(),
        0 <= b < walker_count(),
        a != b,
        walker_at(maze, cycle[0], a, 1) == Some(cycle[1]),
        walker_at(maze, cycle[0], b, 1) == Some(cycle.last()),
        k <= round_limit(maze),
        1 <= r < k,
    ensures
        trace_from(maze, cycle[0], r) == Ok::<(nat, Seq<Position>), MazeError>(
            (
                k,
                closed_loop(
                    maze,
                    cycle[0],
                    if a > b {
                        a
                    } else {
                        b
                    },
                    if a > b {
                        b
                    } else {
                        a
                    },
                    k,
                ),
            ),
        ),
    decreases k - r,
{
    let start = cycle[0];
    let r1 = r + 1;
    let ps = arrivals(maze, start, r1);
    lemma_cycle_arrivals(maze, cycle, k, a, b, r1);
    lemma_meeting_found(ps, ps.len() as int);
    let hi = if a > b {
        a
    } else {
        b
    };
    let lo = if a > b {
        b
    } else {
        a
    };
    if r1 < k {
        assert forall|x: int, y: int| 0 <= y < x < ps.len() implies !together(ps, x, y) by {
            if together(ps, x, y) {
                assert(ps[x] is Some && ps[y] is Some);
                assert(x == a || x == b);
                assert(y == a || y == b);
            }
        }
        assert(meeting(ps) is None);
        lemma_cycle_rounds(maze, cycle, k, a, b, r1);
    } else {
        assert(together(ps, hi, lo));
        assert(meeting(ps) is Some);
        let (x, y) = meeting(ps)->0;
        assert(together(ps, x, y));
        assert(x == a || x == b);
        assert(y == a || y == b);
        assert(x == hi && y == lo);
        assert(!crowded(ps, x, y)) by {
            if crowded(ps, x, y) {
                let l = choose|l: int|
                    0 <= l < ps.len() && l != x && l != y && #[trigger] together(ps, l, x);
                assert(ps[l] is Some);
            }
        }
    }
}

/// On a maze that holds one proper loop through its start, the trace finds it.
/// If `cycle` is a loop of `2 * k` pipes through the start, and a walker sent
/// to any cell around the start that is not on the loop stops there, then the
/// trace succeeds after `k` moves, and the path it returns is the round trip
/// along the cycle, forwards or backwards.
pub proof fn lemma_cycle_traced(maze: GridView<Tile>, cycle: Seq<Position>, k: nat)
    requires
        maze.wf(),
        is_cycle(maze, cycle),
        only_way(maze, cycle),
        cycle.len() == 2 * k,
    ensures
        trace(maze) is Ok,
        trace(maze)->Ok_0.0 == k,
        trace(maze)->Ok_0.1 == round_trip(cycle) || trace(maze)->Ok_0.1 == round_trip(
            cycle,
        ).reverse(),
{
    let start = cycle[0];
    let closed = round_trip(cycle);
    let n = cycle.len() as int;
    let chosen = choose|p: Position| is_start(maze, p);
    lemma_start_unique(maze, start, chosen);
    let (a, b) = lemma_cycle_walkers(maze, cycle);
    assert(k >= 2);
    assert forall|t: int| 0 <= t < cycle.len() implies maze.has(#[trigger] cycle[t]) by {
        if t > 0 {
            assert(pipe_at(maze, closed, t));
            assert(closed[t] == cycle[t]);
            lemma_step(maze, closed[t - 1], closed[t]);
            lemma_forward(maze, cycle, a, t as nat);
            crate::tracer::lemma_walker_in_grid(maze, start, a, t as nat);
        }
    }
    maze.lemma_distinct_cells_fit(cycle);
    lemma_cycle_rounds(maze, cycle, k, a, b, 1);
    let hi = if a > b {
        a
    } else {
        b
    };
    let lo = if a > b {
        b
    } else {
        a
    };
    let path = closed_loop(maze, start, hi, lo, k);
    assert(trace(maze) == Ok::<(nat, Seq<Position>), MazeError>((k, path)));
    assert(path.len() == closed.len());
    if a > b {
        assert forall|t: int| 0 <= t < path.len() implies path[t] == closed[t] by {
            if t <= k {
                lemma_forward(maze, cycle, a, t as nat);
            } else {
                lemma_backward(maze, cycle, b, (2 * k - t) as nat);
            }
        }
        assert(path =~= closed);
    } else {
        assert forall|t: int| 0 <= t < path.len() implies path[t] == closed.reverse()[t] by {
            if t <= k {
                lemma_backward(maze, cycle, b, t as nat);
            } else {
                lemma_forward(maze, cycle, a, (2 * k - t) as nat);
            }
        }
        assert(path =~= closed.reverse());
    }
}

/// A loop that the trace returns, and whose meeting point closes it, is a loop
/// of pipes through the start: the path without its last cell is a cycle, and
/// the path is the round trip along it.
pub proof fn lemma_traced_is_cycle(maze: GridView<Tile>)
    requires
        maze.wf(),
        trace(maze) is Ok,
        ({
            let (steps, path) = trace(maze)->Ok_0;
            step(maze, path[steps - 1], path[steps as int]) == Some(path[steps as int + 1])
        }),
    ensures
        is_cycle(maze, trace(maze)->Ok_0.1.drop_last()),
        trace(maze)->Ok_0.1 == round_trip(trace(maze)->Ok_0.1.drop_last()),
        trace(maze)->Ok_0.1.drop_last().len() == 2 * trace(maze)->Ok_0.0,
{
    let (steps, path) = trace(maze)->Ok_0;
    let cycle = path.drop_last();
    lemma_loop_shape(maze);
    lemma_loop_simple(maze);
    assert(path =~= round_trip(cycle));
    assert(pipe_at(maze, path, steps as int));
    assert forall|x: int, y: int| 0 <= x < cycle.len() && 0 <= y < cycle.len() && x != y implies cycle[x]
        != cycle[y] by {
        if x < y {
            assert(path[x] != path[y]);
        } else {
            assert(path[y] != path[x]);
        }
    }
}

/// On the text of a maze that holds one proper loop of `2 * k` pipes through
/// its start, the farthest point of the loop is `k` moves from the start.
pub proof fn lemma_half_length(text: Seq<char>, cycle: Seq<Position>, k: nat)
    requires
        maze_of(text) is Ok,
        maze_of(text)->Ok_0.wf(),
        is_cycle(maze_of(text)->Ok_0, cycle),
        only_way(maze_of(text)->Ok_0, cycle),
        cycle.len() == 2 * k,
    ensures
        farthest(text) == Ok::<nat, MazeError>(k),
{
    lemma_cycle_traced(maze_of(text)->Ok_0, cycle, k);
}

} // verus!
