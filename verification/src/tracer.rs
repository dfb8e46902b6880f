//! Tracing the loop: walkers leave the start in all four directions and move
//! in rounds until two of them arrive on one cell.

use vstd::prelude::*;
use crate::grid::{Grid, GridView, Position, neighbor_offsets};
use crate::tile::{MazeError, Tile, lemma_tile_eq};
use crate::walk::{
    arrivals,
    closed_loop,
    crowded,
    get_next_posn,
    holds,
    is_start,
    meeting,
    meeting_before,
    partner,
    round_limit,
    step,
    together,
    trace,
    trace_from,
    trail,
    walker_at,
    walker_count,
};

verus! {

/// A walker that has not run into a dead end has a position after each smaller
/// number of moves too.
pub proof fn lemma_alive_before(maze: GridView<Tile>, start: Position, i: int, k: nat, t: nat)
    requires
        walker_at(maze, start, i, k) is Some,
        t <= k,
    ensures
        walker_at(maze, start, i, t) is Some,
    decreases k,
{
    if t < k {
        if k >= 2 {
            lemma_alive_before(maze, start, i, (k - 1) as nat, t);
        }
    }
}

/// A walker never leaves the grid.
pub proof fn lemma_walker_in_grid(maze: GridView<Tile>, start: Position, i: int, k: nat)
    requires
        maze.has(start),
        walker_at(maze, start, i, k) is Some,
    ensures
        maze.has(walker_at(maze, start, i, k)->0),
{
    reveal(step);
}

/// Once every walker has run into a dead end, no two ever meet.
pub proof fn lemma_all_stopped(maze: GridView<Tile>, start: Position, k: nat)
    requires
        k >= 1,
        forall|i: int| 0 <= i < walker_count() ==> walker_at(maze, start, i, k) is None,
    ensures
        trace_from(maze, start, k) == Err::<(nat, Seq<Position>), MazeError>(
            MazeError::NoCycleFound,
        ),
    decreases round_limit(maze) + 1 - k,
{
    if k <= round_limit(maze) {
        let k1 = k + 1;
        let ps = arrivals(maze, start, k1);
        assert forall|i: int| 0 <= i < walker_count() implies #[trigger] walker_at(
            maze,
            start,
            i,
            k1,
        ) is None by {
            assert(walker_at(maze, start, i, k) is None);
        }
        lemma_nobody_no_meeting(ps, ps.len() as int);
        lemma_all_stopped(maze, start, k1);
    }
}

/// Where nobody stands, nobody meets.
pub proof fn lemma_nobody_no_meeting(ps: Seq<Option<Position>>, n: int)
    requires
        forall|i: int| 0 <= i < ps.len() ==> ps[i] is None,
    ensures
        meeting_before(ps, n) is None,
    decreases n,
{
    if n > 0 {
        lemma_nobody_no_meeting(ps, n - 1);
        lemma_partner_found(ps, n - 1, n - 1);
    }
}

/// What `partner` finds: the least earlier walker on the same cell, and
/// `None` exactly when there is none.
pub proof fn lemma_partner_found(ps: Seq<Option<Position>>, i: int, bound: int)
    ensures
        match partner(ps, i, bound) {
            Some(j) => {
                &&& 0 <= j < bound
                &&& together(ps, i, j)
                &&& forall|l: int| 0 <= l < j ==> !together(ps, i, l)
            },
            None => forall|l: int| 0 <= l < bound ==> !together(ps, i, l),
        },
    decreases bound,
{
    if bound > 0 {
        lemma_partner_found(ps, i, bound - 1);
    }
}

/// What `meeting_before` finds: the least walker that has a partner before it,
/// with its least partner, and `None` exactly when no two walkers before `n`
/// stand together.
pub proof fn lemma_meeting_found(ps: Seq<Option<Position>>, n: int)
    ensures
        match meeting_before(ps, n) {
            Some((i, j)) => {
                &&& 0 <= j < i < n
                &&& together(ps, i, j)
                &&& forall|l: int| 0 <= l < j ==> !together(ps, i, l)
                &&& forall|a: int, b: int| 0 <= b < a < i ==> !together(ps, a, b)
            },
            None => forall|a: int, b: int| 0 <= b < a < n ==> !together(ps, a, b),
        },
    decreases n,
{
    if n > 0 {
        lemma_meeting_found(ps, n - 1);
        lemma_partner_found(ps, n - 1, n - 1);
    }
}

/// The first meeting among the walkers standing at `ps`: the first walker, in
/// order, that stands where an earlier one stands, together with the first
/// such earlier walker.
pub fn first_meeting(ps: &Vec<Option<Position>>) -> (r: Option<(usize, usize)>)
    ensures
        match r {
            Some((i, j)) => meeting(ps@) == Some((i as int, j as int)),
            None => meeting(ps@) is None,
        },
{
    let mut i: usize = 0;
    while i < ps.len()
        invariant
            i <= ps.len(),
            meeting_before(ps@, i as int) is None,
        decreases ps.len() - i,
    {
        match ps[i] {
            Some(p) => {
                let mut j: usize = 0;
                while j < i
                    invariant
                        j <= i < ps.len(),
                        ps@[i as int] == Some(p),
                        partner(ps@, i as int, j as int) is None,
                        meeting_before(ps@, i as int) is None,
                    decreases i - j,
                {
                    if holds(&ps[j], &p) {
                        proof {
                            assert(together(ps@, i as int, j as int));
                            assert(partner(ps@, i as int, j + 1) == Some(j as int));
                            lemma_partner_grows(ps@, i as int, j + 1, i as int);
                            lemma_meeting_grows(ps@, i + 1, ps@.len() as int);
                        }
                        return Some((i, j));
                    }
                    j += 1;
                }
            },
            None => {
                proof {
                    lemma_partner_found(ps@, i as int, i as int);
                }
            },
        }
        i += 1;
    }
    None
}

/// A partner found before `bound` is the partner found before any later bound.
pub proof fn lemma_partner_grows(ps: Seq<Option<Position>>, i: int, bound: int, later: int)
    requires
        partner(ps, i, bound) is Some,
        bound <= later,
    ensures
        partner(ps, i, later) == partner(ps, i, bound),
    decreases later - bound,
{
    if bound < later {
        lemma_partner_grows(ps, i, bound, later - 1);
    }
}

/// A meeting found before `n` is the meeting found before any later bound.
pub proof fn lemma_meeting_grows(ps: Seq<Option<Position>>, n: int, later: int)
    requires
        meeting_before(ps, n) is Some,
        n <= later,
    ensures
        meeting_before(ps, later) == meeting_before(ps, n),
    decreases later - n,
{
    if n < later {
        lemma_meeting_grows(ps, n, later - 1);
    }
}

/// Whether a walker other than `i` and `j` stands where walker `i` stands.
pub fn is_crowded(ps: &Vec<Option<Position>>, i: usize, j: usize) -> (r: bool)
    ensures
        r == crowded(ps@, i as int, j as int),
{
    if i >= ps.len() {
        return false;
    }
    let p = match ps[i] {
        Some(p) => p,
        None => {
            return false;
        },
    };
    let mut l: usize = 0;
    while l < ps.len()
        invariant
            l <= ps.len(),
            i < ps.len(),
            ps@[i as int] == Some(p),
            forall|x: int| 0 <= x < l && x != i && x != j ==> !together(ps@, x, i as int),
        decreases ps.len() - l,
    {
        if l != i && l != j && holds(&ps[l], &p) {
            assert(together(ps@, l as int, i as int));
            return true;
        }
        l += 1;
    }
    false
}

/// Joins two trails that meet into one closed path: `a` from its first cell to
/// its last, then `meet`, then `b` backwards from its last cell to its second,
/// then `start`.
pub fn close_loop(a: &Vec<Position>, meet: Position, b: &Vec<Position>, start: Position) -> (path:
    Vec<Position>)
    requires
        b@.len() >= 1,
    ensures
        path@ == a@ + seq![meet] + b@.subrange(1, b@.len() as int).reverse() + seq![start],
{
    let mut path: Vec<Position> = Vec::new();
    let mut i: usize = 0;
    while i < a.len()
        invariant
            i <= a.len(),
            path@ == a@.subrange(0, i as int),
        decreases a.len() - i,
    {
        path.push(a[i]);
        proof {
            assert(path@ =~= a@.subrange(0, i + 1));
        }
        i += 1;
    }
    path.push(meet);
    let ghost tail = b@.subrange(1, b@.len() as int).reverse();
    let ghost head = a@ + seq![meet];
    assert(path@ =~= head);
    let mut k: usize = b.len();
    while k > 1
        invariant
            1 <= k <= b.len(),
            tail == b@.subrange(1, b@.len() as int).reverse(),
            path@ == head + tail.subrange(0, b.len() - k),
        decreases k,
    {
        k -= 1;
        path.push(b[k]);
        proof {
            assert(tail[b.len() - k - 1] == b@[k as int]);
            assert(path@ =~= head + tail.subrange(0, b.len() - k));
        }
    }
    path.push(start);
    proof {
        assert(tail.subrange(0, b.len() - 1) =~= tail);
    }
    path
}

/// A cursor that follows the pipes away from the start.
pub struct Walker {
    current: Position,
    previous: Position,
    history: Vec<Position>,
}

impl Walker {
    /// The cell that the walker stands on.
    pub closed spec fn current(&self) -> Position {
        self.current
    }

    /// The cell that the walker came from.
    pub closed spec fn previous(&self) -> Position {
        self.previous
    }

    /// Every cell that the walker has stood on, from the start to where it
    /// stands now.
    pub closed spec fn history(&self) -> Seq<Position> {
        self.history@
    }

    /// The history is held in memory, so its length fits in `usize`.
    pub proof fn lemma_history_fits(&self)
        ensures
            self.history().len() <= usize::MAX,
    {
        assert(self.history.len() == self.history@.len());
    }

    /// The walker is walker `i` of the trace after `k` moves.
    pub open spec fn tracks(&self, maze: GridView<Tile>, start: Position, i: int, k: nat) -> bool {
        &&& k >= 1
        &&& walker_at(maze, start, i, k) == Some(self.current())
        &&& walker_at(maze, start, i, (k - 1) as nat) == Some(self.previous())
        &&& self.history() == trail(maze, start, i, k)
    }

    /// A walker that has made its first move, from `start` to `first`.
    pub fn spawn(start: Position, first: Position) -> (w: Walker)
        ensures
            w.current() == first,
            w.previous() == start,
            w.history() == seq![start, first],
    {
        let mut history: Vec<Position> = Vec::new();
        history.push(start);
        history.push(first);
        Walker { current: first, previous: start, history }
    }

    /// Where the walker's next move takes it, or `None` at a dead end.
    pub fn look_ahead(&self, grid: &Grid<Tile>) -> (r: Option<Position>)
        requires
            grid@.wf(),
        ensures
            r == if grid@.has(self.current()) {
                step(grid@, self.previous(), self.current())
            } else {
                None
            },
    {
        proof {
            reveal(step);
        }
        match grid.get(&self.current) {
            Some(tile) => get_next_posn(grid, &self.previous, &self.current, &tile),
            None => None,
        }
    }

    /// Moves the walker to `next`.
    pub fn advance(&mut self, next: Position)
        ensures
            final(self).current() == next,
            final(self).previous() == old(self).current(),
            final(self).history() == old(self).history().push(next),
    {
        self.previous = self.current;
        self.current = next;
        self.history.push(next);
    }
}

/// The walkers as they stand after `k` moves: slot `i` holds walker `i`, or
/// nothing once it has run into a dead end.
pub open spec fn walkers_at(
    walkers: Seq<Option<Walker>>,
    maze: GridView<Tile>,
    start: Position,
    k: nat,
) -> bool {
    &&& walkers.len() == walker_count()
    &&& forall|i: int|
        0 <= i < walker_count() ==> match #[trigger] walkers[i] {
            Some(w) => w.tracks(maze, start, i, k),
            None => walker_at(maze, start, i, k) is None,
        }
}

/// Sends a walker to each cell around `start` that lies inside the grid.
fn spawn_walkers(grid: &Grid<Tile>, start: &Position) -> (walkers: Vec<Option<Walker>>)
    ensures
        walkers_at(walkers@, grid@, *start, 1),
{
    let firsts = grid.neighbors(start, false);
    let mut walkers: Vec<Option<Walker>> = Vec::new();
    let mut i: usize = 0;
    while i < firsts.len()
        invariant
            i <= firsts.len(),
            firsts@.len() == walker_count(),
            walkers@.len() == i,
            forall|x: int|
                0 <= x < firsts@.len() ==> #[trigger] firsts@[x] == grid@.shifted(
                    *start,
                    neighbor_offsets(false)[x],
                ),
            forall|x: int|
                0 <= x < i ==> match #[trigger] walkers@[x] {
                    Some(w) => w.tracks(grid@, *start, x, 1),
                    None => walker_at(grid@, *start, x, 1) is None,
                },
        decreases firsts.len() - i,
    {
        match firsts[i] {
            Some(p) => {
                let w = Walker::spawn(*start, p);
                proof {
                    assert(walker_at(grid@, *start, i as int, 1) == Some(p));
                    assert(w.history() =~= trail(grid@, *start, i as int, 1));
                }
                walkers.push(Some(w));
            },
            None => {
                walkers.push(None);
            },
        }
        i += 1;
    }
    walkers
}

/// Whether any walker still stands.
fn any_walker(walkers: &Vec<Option<Walker>>) -> (r: bool)
    ensures
        r == exists|i: int| 0 <= i < walkers@.len() && (#[trigger] walkers@[i]) is Some,
{
    let mut i: usize = 0;
    while i < walkers.len()
        invariant
            i <= walkers.len(),
            forall|x: int| 0 <= x < i ==> (#[trigger] walkers@[x]) is None,
        decreases walkers.len() - i,
    {
        if walkers[i].is_some() {
            return true;
        }
        i += 1;
    }
    false
}

/// Where the next move takes each walker.
fn look_ahead_all(grid: &Grid<Tile>, walkers: &Vec<Option<Walker>>) -> (nexts: Vec<
    Option<Position>,
>)
    requires
        grid@.wf(),
    ensures
        nexts@.len() == walkers@.len(),
        forall|i: int|
            0 <= i < walkers@.len() ==> #[trigger] nexts@[i] == match walkers@[i] {
                Some(w) => if grid@.has(w.current()) {
                    step(grid@, w.previous(), w.current())
                } else {
                    None
                },
                None => None,
            },
{
    let mut nexts: Vec<Option<Position>> = Vec::new();
    let mut i: usize = 0;
    while i < walkers.len()
        invariant
            grid@.wf(),
            i <= walkers.len(),
            nexts@.len() == i,
            forall|x: int|
                0 <= x < i ==> #[trigger] nexts@[x] == match walkers@[x] {
                    Some(w) => if grid@.has(w.current()) {
                        step(grid@, w.previous(), w.current())
                    } else {
                        None
                    },
                    None => None,
                },
        decreases walkers.len() - i,
    {
        let next = match &walkers[i] {
            Some(w) => w.look_ahead(grid),
            None => None,
        };
        nexts.push(next);
        i += 1;
    }
    nexts
}

/// Makes every walker's next move: a walker with a next position goes there,
/// one without leaves the trace.
fn advance_all(walkers: &mut Vec<Option<Walker>>, nexts: &Vec<Option<Position>>)
    requires
        nexts@.len() == old(walkers)@.len(),
    ensures
        final(walkers)@.len() == old(walkers)@.len(),
        forall|i: int|
            0 <= i < old(walkers)@.len() ==> match (old(walkers)@[i], nexts@[i]) {
                (Some(w), Some(n)) => {
                    &&& (#[trigger] final(walkers)@[i]) is Some
                    &&& final(walkers)@[i]->0.current() == n
                    &&& final(walkers)@[i]->0.previous() == w.current()
                    &&& final(walkers)@[i]->0.history() == w.history().push(n)
                },
                _ => (#[trigger] final(walkers)@[i]) is None,
            },
{
    let mut i: usize = 0;
    while i < walkers.len()
        invariant
            i <= walkers.len(),
            walkers@.len() == old(walkers)@.len(),
            nexts@.len() == walkers@.len(),
            forall|x: int| i <= x < walkers@.len() ==> walkers@[x] == old(walkers)@[x],
            forall|x: int|
                0 <= x < i ==> match (old(walkers)@[x], nexts@[x]) {
                    (Some(w), Some(n)) => {
                        &&& (#[trigger] walkers@[x]) is Some
                        &&& walkers@[x]->0.current() == n
                        &&& walkers@[x]->0.previous() == w.current()
                        &&& walkers@[x]->0.history() == w.history().push(n)
                    },
                    _ => (#[trigger] walkers@[x]) is None,
                },
        decreases walkers.len() - i,
    {
        match nexts[i] {
            Some(n) => {
                match &mut walkers[i] {
                    Some(w) => {
                        w.advance(n);
                    },
                    None => {},
                }
            },
            None => {
                walkers[i] = None;
            },
        }
        i += 1;
    }
}

/// The first start tile in row-major order is the only position that
/// `is_start` holds of.
pub proof fn lemma_start_unique(maze: GridView<Tile>, p: Position, q: Position)
    requires
        is_start(maze, p),
        is_start(maze, q),
    ensures
        p == q,
{
    if p != q {
        if crate::grid::precedes(p, q) {
            assert(maze.at(p) != Tile::Start);
        } else {
            assert(crate::grid::precedes(q, p));
            assert(maze.at(q) != Tile::Start);
        }
    }
}

/// Where the walkers stand after `k` moves, their next positions are where
/// they stand after `k + 1` moves.
pub proof fn lemma_nexts_are_arrivals(
    walkers: Seq<Option<Walker>>,
    nexts: Seq<Option<Position>>,
    maze: GridView<Tile>,
    start: Position,
    k: nat,
)
    requires
        maze.has(start),
        k >= 1,
        walkers_at(walkers, maze, start, k),
        nexts.len() == walkers.len(),
        forall|i: int|
            0 <= i < walkers.len() ==> #[trigger] nexts[i] == match walkers[i] {
                Some(w) => if maze.has(w.current()) {
                    step(maze, w.previous(), w.current())
                } else {
                    None
                },
                None => None,
            },
    ensures
        nexts == arrivals(maze, start, k + 1),
{
    let k1 = k + 1;
    assert forall|i: int| 0 <= i < walker_count() implies nexts[i] == #[trigger] walker_at(
        maze,
        start,
        i,
        k1,
    ) by {
        match walkers[i] {
            Some(w) => {
                assert(w.tracks(maze, start, i, k));
                lemma_walker_in_grid(maze, start, i, k);
            },
            None => {
                assert(walker_at(maze, start, i, k) is None);
            },
        }
    }
    assert(nexts =~= arrivals(maze, start, k1));
}

/// Two trails of `k` moves whose walkers meet on their next move, joined at the
/// meeting point, are the closed loop of the trace.
pub proof fn lemma_loop_closed(
    maze: GridView<Tile>,
    start: Position,
    a: int,
    b: int,
    k: nat,
    meet: Position,
    path: Seq<Position>,
)
    requires
        walker_at(maze, start, a, k + 1) == Some(meet),
        path == trail(maze, start, a, k) + seq![meet] + trail(maze, start, b, k).subrange(
            1,
            k as int + 1,
        ).reverse() + seq![start],
    ensures
        path == closed_loop(maze, start, a, b, k + 1),
{
    let m = k + 1;
    let ta = trail(maze, start, a, k);
    let tb = trail(maze, start, b, k);
    let back = tb.subrange(1, k as int + 1).reverse();
    let target = closed_loop(maze, start, a, b, m);
    assert(path.len() == target.len());
    assert forall|t: int| 0 <= t < path.len() implies path[t] == target[t] by {
        if t <= k {
            assert(path[t] == ta[t]);
        } else if t == m {
            assert(path[t] == meet);
        } else if t < 2 * m {
            assert(path[t] == back[t - m - 1]);
            assert(back[t - m - 1] == tb[2 * m - t]);
        } else {
            assert(path[t] == start);
        }
    }
    assert(path =~= target);
}

/// After a round without a dead end for them, the walkers that moved on stand
/// where the trace puts them one move later.
pub proof fn lemma_advanced(
    before: Seq<Option<Walker>>,
    after: Seq<Option<Walker>>,
    nexts: Seq<Option<Position>>,
    maze: GridView<Tile>,
    start: Position,
    k: nat,
)
    requires
        k >= 1,
        walkers_at(before, maze, start, k),
        nexts == arrivals(maze, start, k + 1),
        after.len() == before.len(),
        forall|i: int|
            0 <= i < before.len() ==> match (before[i], nexts[i]) {
                (Some(w), Some(n)) => {
                    &&& (#[trigger] after[i]) is Some
                    &&& after[i]->0.current() == n
                    &&& after[i]->0.previous() == w.current()
                    &&& after[i]->0.history() == w.history().push(n)
                },
                _ => (#[trigger] after[i]) is None,
            },
    ensures
        walkers_at(after, maze, start, k + 1),
{
    let k1 = k + 1;
    assert forall|i: int| 0 <= i < walker_count() implies match #[trigger] after[i] {
        Some(w) => w.tracks(maze, start, i, k1),
        None => walker_at(maze, start, i, k1) is None,
    } by {
        assert(nexts[i] == walker_at(maze, start, i, k1));
        match (before[i], nexts[i]) {
            (Some(w0), Some(n)) => {
                assert(w0.tracks(maze, start, i, k));
                let w = after[i]->0;
                assert(w.history() =~= trail(maze, start, i, k1));
            },
            (None, Some(n)) => {
                assert(walker_at(maze, start, i, k) is None);
            },
            _ => {},
        }
    }
}

/// Finds the loop through the start tile. A walker leaves the start towards
/// each cell around it that lies inside the grid, in the order north, west,
/// east, south. In each round every walker moves on through the tile it stands
/// on; a walker whose tile does not lead back to where it came from, or leads
/// out of the grid, stops. The trace ends in the first round in which two
/// walkers arrive on one cell, and returns the number of moves that each has
/// made, together with the closed path: from the start along the later
/// walker's trail to the meeting point, and back along the earlier walker's
/// trail to the start.
///
/// Fails with `MissingStart` when the grid holds no start tile, with
/// `AmbiguousMeeting` when a third walker arrives at the meeting point in the
/// same round, and with `NoCycleFound` when no walkers meet within one round
/// for every cell of the grid.
pub fn find_path(grid: &Grid<Tile>) -> (r: Result<(usize, Vec<Position>), MazeError>)
    requires
        grid@.wf(),
    ensures
        match r {
            Ok((steps, path)) => trace(grid@) == Ok::<(nat, Seq<Position>), MazeError>(
                (steps as nat, path@),
            ),
            Err(e) => trace(grid@) == Err::<(nat, Seq<Position>), MazeError>(e),
        },
{
    proof {
        lemma_tile_eq();
    }
    let start = match grid.find(&Tile::Start) {
        Some(s) => s,
        None => {
            return Err(MazeError::MissingStart);
        },
    };
    proof {
        assert(is_start(grid@, start));
        let chosen = choose|p: Position| is_start(grid@, p);
        lemma_start_unique(grid@, start, chosen);
    }
    let mut walkers = spawn_walkers(grid, &start);
    let (rows, cols) = grid.shape();
    assert(rows * cols <= u128::MAX) by (nonlinear_arith)
        requires
            rows <= u64::MAX,
            cols <= u64::MAX,
    ;
    let limit: u128 = rows as u128 * cols as u128;
    let mut steps: usize = 1;
    loop
        invariant
            grid@.wf(),
            grid@.has(start),
            steps >= 1,
            limit == round_limit(grid@),
            walkers_at(walkers@, grid@, start, steps as nat),
            trace(grid@) == trace_from(grid@, start, steps as nat),
        decreases limit + 1 - steps,
    {
        if !any_walker(&walkers) {
            proof {
                assert forall|i: int| 0 <= i < walker_count() implies walker_at(
                    grid@,
                    start,
                    i,
                    steps as nat,
                ) is None by {
                    assert(walkers@[i] is None);
                }
                lemma_all_stopped(grid@, start, steps as nat);
            }
            return Err(MazeError::NoCycleFound);
        }
        if steps as u128 > limit {
            return Err(MazeError::NoCycleFound);
        }
        proof {
            let x = choose|x: int| 0 <= x < walkers@.len() && (#[trigger] walkers@[x]) is Some;
            let w = walkers@[x]->0;
            assert(w.tracks(grid@, start, x, steps as nat));
            w.lemma_history_fits();
        }
        let nexts = look_ahead_all(grid, &walkers);
        proof {
            lemma_nexts_are_arrivals(walkers@, nexts@, grid@, start, steps as nat);
        }
        match first_meeting(&nexts) {
            Some((a, b)) => {
                proof {
                    lemma_meeting_found(nexts@, nexts@.len() as int);
                }
                if is_crowded(&nexts, a, b) {
                    return Err(MazeError::AmbiguousMeeting);
                }
                let meet = match nexts[a] {
                    Some(p) => p,
                    None => start,
                };
                match (&walkers[a], &walkers[b]) {
                    (Some(wa), Some(wb)) => {
                        let path = close_loop(&wa.history, meet, &wb.history, start);
                        proof {
                            assert(walkers@[a as int] == Some(*wa));
                            assert(walkers@[b as int] == Some(*wb));
                            assert(wa.tracks(grid@, start, a as int, steps as nat));
                            assert(wb.tracks(grid@, start, b as int, steps as nat));
                            assert(nexts@[a as int] == walker_at(
                                grid@,
                                start,
                                a as int,
                                (steps + 1) as nat,
                            ));
                            lemma_loop_closed(
                                grid@,
                                start,
                                a as int,
                                b as int,
                                steps as nat,
                                meet,
                                path@,
                            );
                        }
                        return Ok((steps + 1, path));
                    },
                    _ => {
                        proof {
                            assert(together(nexts@, a as int, b as int));
                            assert(false);
                        }
                        return Err(MazeError::NoCycleFound);
                    },
                }
            },
            None => {},
        }
        let ghost before = walkers@;
        advance_all(&mut walkers, &nexts);
        proof {
            lemma_advanced(before, walkers@, nexts@, grid@, start, steps as nat);
        }
        steps += 1;
    }
}

} // verus!
