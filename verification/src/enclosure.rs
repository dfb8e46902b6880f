//! Counting the cells that a closed path encloses.
//!
//! The path is read as a polygon whose corners are the centres of the cells it
//! names, in order, with one more edge from the last corner back to the first.
//! A cell that is not on the path is inside when a ray from its centre towards
//! growing columns crosses an odd number of edges.
//!
//! Ties are settled by one rule: an edge counts for the row of `p` when it
//! spans that row half-openly, one end at or above the row and the other end
//! strictly below it. So an edge that runs along the row never counts, a corner
//! on the row belongs to the edge that goes on below it, and an edge is crossed
//! only where it passes the row strictly beyond the column of `p`.

use vstd::prelude::*;
use crate::grid::Position;

verus! {

/// The edge from `lo` up to `hi`, which spans the row of `p`, passes that row
/// beyond the column of `p`.
pub open spec fn beyond(p: Position, lo: Position, hi: Position) -> bool {
    (p.1 - lo.1) * (hi.0 - lo.0) < (hi.1 - lo.1) * (p.0 - lo.0)
}

/// The ray from `p` towards growing columns crosses the edge between `u` and
/// `v`.
pub open spec fn crosses(p: Position, u: Position, v: Position) -> bool {
    if u.0 <= p.0 < v.0 {
        beyond(p, u, v)
    } else if v.0 <= p.0 < u.0 {
        beyond(p, v, u)
    } else {
        false
    }
}

/// The corner that follows corner `i` on the polygon.
pub open spec fn after(path: Seq<Position>, i: int) -> Position {
    if i + 1 < path.len() {
        path[i + 1]
    } else {
        path[0]
    }
}

/// How many of the first `n` edges of the polygon the ray from `p` crosses.
pub open spec fn crossings(path: Seq<Position>, p: Position, n: int) -> nat
    decreases n,
{
    if n <= 0 {
        0
    } else {
        crossings(path, p, n - 1) + if crosses(p, path[n - 1], after(path, n - 1)) {
            1nat
        } else {
            0nat
        }
    }
}

/// `p` lies inside the polygon: the ray from it crosses an odd number of
/// edges.
pub open spec fn inside(path: Seq<Position>, p: Position) -> bool {
    crossings(path, p, path.len() as int) % 2 == 1
}

/// `p` is a cell of a grid of the given shape that lies off the path and
/// inside the polygon.
pub open spec fn is_enclosed(path: Seq<Position>, rows: nat, cols: nat, p: Position) -> bool {
    p.0 < rows && p.1 < cols && !path.contains(p) && inside(path, p)
}

/// The cells of a grid of the given shape that the path encloses.
pub open spec fn enclosed(path: Seq<Position>, rows: nat, cols: nat) -> Set<Position> {
    Set::new(|p: Position| is_enclosed(path, rows, cols, p))
}

/// Whether `p` is one of the cells of the path.
pub fn on_path(path: &Vec<Position>, p: &Position) -> (r: bool)
    ensures
        r == path@.contains(*p),
{
    let mut i: usize = 0;
    while i < path.len()
        invariant
            i <= path.len(),
            forall|x: int| 0 <= x < i ==> path@[x] != *p,
        decreases path.len() - i,
    {
        if path[i].0 == p.0 && path[i].1 == p.1 {
            return true;
        }
        i += 1;
    }
    false
}

/// Whether the edge from `lo` to `hi`, which spans the row of `p`, passes that
/// row beyond the column of `p`.
pub fn passes_beyond(p: &Position, lo: &Position, hi: &Position) -> (r: bool)
    requires
        lo.0 <= p.0 < hi.0,
    ensures
        r == beyond(*p, *lo, *hi),
{
    let rise: u128 = (hi.0 - lo.0) as u128;
    let drop: u128 = (p.0 - lo.0) as u128;
    let left_neg = p.1 < lo.1;
    let left_mag: u128 = if left_neg {
        (lo.1 - p.1) as u128
    } else {
        (p.1 - lo.1) as u128
    };
    let right_neg = hi.1 < lo.1;
    let right_mag: u128 = if right_neg {
        (lo.1 - hi.1) as u128
    } else {
        (hi.1 - lo.1) as u128
    };
    assert(left_mag * rise <= u128::MAX && right_mag * drop <= u128::MAX) by (nonlinear_arith)
        requires
            0 <= left_mag <= u64::MAX,
            0 <= right_mag <= u64::MAX,
            0 <= rise <= u64::MAX,
            0 <= drop <= u64::MAX,
    ;
    let left: u128 = left_mag * rise;
    let right: u128 = right_mag * drop;
    proof {
        let x = p.1 - lo.1;
        let y = hi.1 - lo.1;
        assert(left_neg ==> x * rise == -left) by (nonlinear_arith)
            requires
                left == left_mag * rise,
                left_neg ==> x == -left_mag,
        ;
        assert(!left_neg ==> x * rise == left) by (nonlinear_arith)
            requires
                left == left_mag * rise,
                !left_neg ==> x == left_mag,
        ;
        assert(right_neg ==> y * drop == -right) by (nonlinear_arith)
            requires
                right == right_mag * drop,
                right_neg ==> y == -right_mag,
        ;
        assert(!right_neg ==> y * drop == right) by (nonlinear_arith)
            requires
                right == right_mag * drop,
                !right_neg ==> y == right_mag,
        ;
        assert(left_neg ==> left > 0) by (nonlinear_arith)
            requires
                left == left_mag * rise,
                left_neg ==> left_mag > 0,
                rise > 0,
        ;
    }
    if left_neg {
        if right_neg {
            left > right
        } else {
            true
        }
    } else {
        if right_neg {
            false
        } else {
            left < right
        }
    }
}

/// Whether the ray from `p` towards growing columns crosses the edge between
/// `u` and `v`.
pub fn crosses_edge(p: &Position, u: &Position, v: &Position) -> (r: bool)
    ensures
        r == crosses(*p, *u, *v),
{
    if u.0 <= p.0 && p.0 < v.0 {
        passes_beyond(p, u, v)
    } else if v.0 <= p.0 && p.0 < u.0 {
        passes_beyond(p, v, u)
    } else {
        false
    }
}

/// Whether `p` lies inside the polygon whose corners are the cells of `path`.
pub fn point_in_polygon(path: &Vec<Position>, p: &Position) -> (r: bool)
    ensures
        r == inside(path@, *p),
{
    let n: usize = path.len();
    let mut odd = false;
    let mut i: usize = 0;
    while i < n
        invariant
            i <= n,
            n == path@.len(),
            odd == (crossings(path@, *p, i as int) % 2 == 1),
        decreases n - i,
    {
        let next = if i + 1 < n {
            path[i + 1]
        } else {
            path[0]
        };
        if crosses_edge(p, &path[i], &next) {
            odd = !odd;
        }
        i += 1;
    }
    odd
}

/// The enclosed cells that come before `(row, col)` in row-major order.
pub open spec fn enclosed_before(
    path: Seq<Position>,
    rows: nat,
    cols: nat,
    row: int,
    col: int,
) -> Set<Position> {
    Set::new(
        |p: Position| is_enclosed(path, rows, cols, p) && (p.0 < row || (p.0 == row && p.1 < col)),
    )
}

/// Counts the cells of a grid of the given shape (rows, columns) that lie off
/// the path and inside the polygon that the path draws.
pub fn count_enclosed(path: &Vec<Position>, shape: (usize, usize)) -> (count: usize)
    requires
        shape.0 * shape.1 <= usize::MAX,
    ensures
        enclosed(path@, shape.0 as nat, shape.1 as nat).finite(),
        count == enclosed(path@, shape.0 as nat, shape.1 as nat).len(),
{
    let (rows, cols) = shape;
    let ghost rn = rows as nat;
    let ghost cn = cols as nat;
    let mut count: usize = 0;
    let mut row: usize = 0;
    proof {
        assert(enclosed_before(path@, rn, cn, 0, 0) =~= Set::empty());
    }
    while row < rows
        invariant
            row <= rows,
            rn == rows,
            cn == cols,
            rows * cols <= usize::MAX,
            enclosed_before(path@, rn, cn, row as int, 0).finite(),
            count == enclosed_before(path@, rn, cn, row as int, 0).len(),
            count <= row * cols,
        decreases rows - row,
    {
        let mut col: usize = 0;
        while col < cols
            invariant
                row < rows,
                col <= cols,
                rn == rows,
                cn == cols,
                rows * cols <= usize::MAX,
                enclosed_before(path@, rn, cn, row as int, col as int).finite(),
                count == enclosed_before(path@, rn, cn, row as int, col as int).len(),
                count <= row * cols + col,
            decreases cols - col,
        {
            let p = (row, col);
            let ghost seen = enclosed_before(path@, rn, cn, row as int, col as int);
            proof {
                assert(row * cols + col < rows * cols) by (nonlinear_arith)
                    requires
                        row < rows,
                        col < cols,
                ;
            }
            if !on_path(path, &p) && point_in_polygon(path, &p) {
                count += 1;
                proof {
                    assert(is_enclosed(path@, rn, cn, p));
                    assert(enclosed_before(path@, rn, cn, row as int, col + 1) =~= seen.insert(p));
                }
            } else {
                proof {
                    assert(!is_enclosed(path@, rn, cn, p));
                    assert(enclosed_before(path@, rn, cn, row as int, col + 1) =~= seen);
                }
            }
            col += 1;
        }
        proof {
            assert(enclosed_before(path@, rn, cn, row + 1, 0) =~= enclosed_before(
                path@,
                rn,
                cn,
                row as int,
                cols as int,
            ));
            assert((row + 1) * cols == row * cols + cols) by (nonlinear_arith);
        }
        row += 1;
    }
    proof {
        assert(enclosed_before(path@, rn, cn, rows as int, 0) =~= enclosed(path@, rn, cn));
    }
    count
}

} // verus!
