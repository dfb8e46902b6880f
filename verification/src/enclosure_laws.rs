//! What the count of enclosed cells does not depend on: the corner at which
//! the polygon starts, and the direction in which it is drawn.

use vstd::prelude::*;
use crate::enclosure::{after, crosses, crossings, enclosed, inside, is_enclosed};
use crate::grid::Position;

verus! {

/// The polygon drawn from its second corner on, with the first corner last.
pub open spec fn turned(path: Seq<Position>) -> Seq<Position> {
    path.skip(1) + path.take(1)
}

/// A closed path, whose last cell is its first, started again at cell `s`: the
/// cells from `s` to the end of the round, then the cells before `s`, then
/// cell `s` once more.
pub open spec fn restarted(path: Seq<Position>, s: int) -> Seq<Position> {
    let round = path.drop_last();
    (round.skip(s) + round.take(s)).push(round[s])
}

/// The first edges of the turned polygon are the edges of the polygon from the
/// second on.
proof fn lemma_turned_prefix(path: Seq<Position>, p: Position, n: int)
    requires
        path.len() >= 2,
        0 <= n <= path.len() - 1,
    ensures
        crossings(turned(path), p, n) + crossings(path, p, 1) == crossings(path, p, n + 1),
    decreases n,
{
    if n > 0 {
        lemma_turned_prefix(path, p, n - 1);
        let t = turned(path);
        assert(t[n - 1] == path[n]);
        assert(after(t, n - 1) == after(path, n));
    } else {
        assert(crossings(turned(path), p, 0) == 0);
    }
}

/// Turning the polygon by one corner keeps the number of crossings.
proof fn lemma_turned_crossings(path: Seq<Position>, p: Position)
    requires
        path.len() >= 1,
    ensures
        crossings(turned(path), p, turned(path).len() as int) == crossings(
            path,
            p,
            path.len() as int,
        ),
{
    let t = turned(path);
    let n = path.len() as int;
    if n >= 2 {
        lemma_turned_prefix(path, p, n - 1);
        assert(t[n - 1] == path[0]);
        assert(after(t, n - 1) == path[1]);
        assert(after(path, 0) == path[1]);
        assert(crossings(path, p, 1) == crossings(path, p, 0) + if crosses(
            p,
            path[0],
            after(path, 0),
        ) {
            1nat
        } else {
            0nat
        });
    } else {
        assert(t =~= path);
    }
}

/// Turning the polygon by one corner keeps its cells.
proof fn lemma_turned_contains(path: Seq<Position>, p: Position)
    requires
        path.len() >= 1,
    ensures
        turned(path).contains(p) == path.contains(p),
{
    let t = turned(path);
    let n = path.len() as int;
    if path.contains(p) {
        let i = choose|i: int| 0 <= i < n && path[i] == p;
        if i == 0 {
            assert(t[n - 1] == p);
        } else {
            assert(t[i - 1] == p);
        }
    }
    if t.contains(p) {
        let i = choose|i: int| 0 <= i < t.len() && t[i] == p;
        if i == n - 1 {
            assert(path[0] == p);
        } else {
            assert(path[i + 1] == p);
        }
    }
}

/// Turning the polygon by `s` corners is turning it by one corner `s` times.
proof fn lemma_turned_again(path: Seq<Position>, s: int)
    requires
        0 <= s < path.len(),
    ensures
        turned(path.skip(s) + path.take(s)) == path.skip(s + 1) + path.take(s + 1),
{
    assert(turned(path.skip(s) + path.take(s)) =~= path.skip(s + 1) + path.take(s + 1));
}

/// Starting the polygon at another corner keeps, for every cell, whether it is
/// on the path and whether it is inside.
pub proof fn lemma_rotation_keeps_inside(path: Seq<Position>, s: int, p: Position)
    requires
        0 <= s <= path.len(),
    ensures
        (path.skip(s) + path.take(s)).contains(p) == path.contains(p),
        inside(path.skip(s) + path.take(s), p) == inside(path, p),
    decreases s,
{
    if s == 0 {
        assert(path.skip(0) + path.take(0) =~= path);
    } else {
        let before = path.skip(s - 1) + path.take(s - 1);
        lemma_rotation_keeps_inside(path, s - 1, p);
        lemma_turned_again(path, s - 1);
        lemma_turned_crossings(before, p);
        lemma_turned_contains(before, p);
    }
}

/// The enclosed cells do not depend on the corner at which the polygon
/// starts.
pub proof fn lemma_rotation_keeps_enclosed(path: Seq<Position>, s: int, rows: nat, cols: nat)
    requires
        0 <= s <= path.len(),
    ensures
        enclosed(path.skip(s) + path.take(s), rows, cols) == enclosed(path, rows, cols),
{
    let other = path.skip(s) + path.take(s);
    assert forall|p: Position| is_enclosed(other, rows, cols, p) == is_enclosed(
        path,
        rows,
        cols,
        p,
    ) by {
        lemma_rotation_keeps_inside(path, s, p);
    }
    assert(enclosed(other, rows, cols) =~= enclosed(path, rows, cols));
}

/// The first edges of the reversed polygon are, backwards, the edges of the
/// polygon before its closing edge.
proof fn lemma_reversed_prefix(path: Seq<Position>, p: Position, n: int)
    requires
        path.len() >= 1,
        0 <= n <= path.len() - 1,
    ensures
        crossings(path.reverse(), p, n) + crossings(path, p, path.len() - 1 - n) == crossings(
            path,
            p,
            path.len() - 1,
        ),
    decreases n,
{
    let len = path.len() as int;
    let r = path.reverse();
    if n > 0 {
        lemma_reversed_prefix(path, p, n - 1);
        assert(r[n - 1] == path[len - n]);
        assert(after(r, n - 1) == path[len - 1 - n]);
        assert(after(path, len - 1 - n) == path[len - n]);
        assert(crosses(p, r[n - 1], after(r, n - 1)) == crosses(
            p,
            path[len - 1 - n],
            after(path, len - 1 - n),
        ));
        assert(crossings(path, p, len - n) == crossings(path, p, len - 1 - n) + if crosses(
            p,
            path[len - 1 - n],
            after(path, len - 1 - n),
        ) {
            1nat
        } else {
            0nat
        });
    }
}

/// Drawing the polygon backwards keeps, for every cell, whether it is on the
/// path and whether it is inside.
pub proof fn lemma_reversal_keeps_inside(path: Seq<Position>, p: Position)
    ensures
        path.reverse().contains(p) == path.contains(p),
        inside(path.reverse(), p) == inside(path, p),
{
    let len = path.len() as int;
    let r = path.reverse();
    if len >= 1 {
        lemma_reversed_prefix(path, p, len - 1);
        assert(crossings(path, p, 0) == 0);
        assert(r[len - 1] == path[0]);
        assert(after(r, len - 1) == path[len - 1]);
        assert(after(path, len - 1) == path[0]);
        assert(crosses(p, r[len - 1], after(r, len - 1)) == crosses(
            p,
            path[len - 1],
            after(path, len - 1),
        ));
        if path.contains(p) {
            let i = choose|i: int| 0 <= i < len && path[i] == p;
            assert(r[len - 1 - i] == p);
        }
        if r.contains(p) {
            let i = choose|i: int| 0 <= i < len && r[i] == p;
            assert(path[len - 1 - i] == p);
        }
    } else {
        assert(r =~= path);
    }
}

/// The enclosed cells do not depend on the direction in which the polygon is
/// drawn.
pub proof fn lemma_reversal_keeps_enclosed(path: Seq<Position>, rows: nat, cols: nat)
    ensures
        enclosed(path.reverse(), rows, cols) == enclosed(path, rows, cols),
{
    assert forall|p: Position| is_enclosed(path.reverse(), rows, cols, p) == is_enclosed(
        path,
        rows,
        cols,
        p,
    ) by {
        lemma_reversal_keeps_inside(path, p);
    }
    assert(enclosed(path.reverse(), rows, cols) =~= enclosed(path, rows, cols));
}

/// The edges of a polygon are the first edges of the polygon with its first
/// corner named once more at the end.
proof fn lemma_closed_prefix(path: Seq<Position>, p: Position, n: int)
    requires
        path.len() >= 1,
        0 <= n <= path.len(),
    ensures
        crossings(path.push(path[0]), p, n) == crossings(path, p, n),
    decreases n,
{
    if n > 0 {
        lemma_closed_prefix(path, p, n - 1);
        let c = path.push(path[0]);
        assert(c[n - 1] == path[n - 1]);
        assert(after(c, n - 1) == after(path, n - 1));
    }
}

/// Naming the first corner once more at the end keeps, for every cell, whether
/// it is on the path and whether it is inside.
pub proof fn lemma_closing_keeps_inside(path: Seq<Position>, p: Position)
    requires
        path.len() >= 1,
    ensures
        path.push(path[0]).contains(p) == path.contains(p),
        inside(path.push(path[0]), p) == inside(path, p),
{
    let len = path.len() as int;
    let c = path.push(path[0]);
    lemma_closed_prefix(path, p, len);
    assert(c[len] == path[0]);
    assert(after(c, len) == path[0]);
    assert(!crosses(p, path[0], path[0]));
    if path.contains(p) {
        let i = choose|i: int| 0 <= i < len && path[i] == p;
        assert(c[i] == p);
    }
    if c.contains(p) {
        let i = choose|i: int| 0 <= i < c.len() && c[i] == p;
        if i == len {
            assert(path[0] == p);
        } else {
            assert(path[i] == p);
        }
    }
}

/// The enclosed cells of a closed path do not depend on the cell at which the
/// path starts.
pub proof fn lemma_restart_keeps_enclosed(path: Seq<Position>, s: int, rows: nat, cols: nat)
    requires
        path.len() >= 2,
        path[0] == path.last(),
        0 <= s < path.len() - 1,
    ensures
        enclosed(restarted(path, s), rows, cols) == enclosed(path, rows, cols),
{
    let round = path.drop_last();
    let moved = round.skip(s) + round.take(s);
    assert(path =~= round.push(round[0]));
    assert(moved[0] == round[s]);
    assert forall|p: Position| is_enclosed(restarted(path, s), rows, cols, p) == is_enclosed(
        path,
        rows,
        cols,
        p,
    ) by {
        lemma_closing_keeps_inside(round, p);
        lemma_rotation_keeps_inside(round, s, p);
        lemma_closing_keeps_inside(moved, p);
    }
    assert(enclosed(restarted(path, s), rows, cols) =~= enclosed(path, rows, cols));
}

} // verus!
