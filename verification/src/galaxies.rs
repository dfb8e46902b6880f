//! An image of galaxies in expanding space: every row and every column without
//! a galaxy counts as several, and the distances between all pairs of galaxies
//! are summed.

use vstd::prelude::*;
use std::collections::HashSet;
use crate::grid::{Grid, GridView, Position, rectangular};
use crate::text::{lines_of, signed_decimal, signed_decimal_string};

verus! {

broadcast use vstd::std_specs::hash::group_hash_axioms;

/// What can go wrong with an image.
#[derive(Clone, Copy, Debug, PartialEq, Eq, Structural)]
pub enum GalaxyError {
    /// Two rows of the image differ in length.
    MalformedGrid,
    /// A distance does not fit in 32 bits, or the sum of the distances does not
    /// fit in 64 bits.
    Overflow,
}

/// Row `r` of the image holds no galaxy.
pub open spec fn row_is_empty(image: GridView<char>, r: usize) -> bool {
    forall|c: usize| c < image.cols() ==> #[trigger] image.at((r, c)) != '#'
}

/// Column `c` of the image holds no galaxy.
pub open spec fn col_is_empty(image: GridView<char>, c: usize) -> bool {
    forall|r: usize| r < image.rows() ==> #[trigger] image.at((r, c)) != '#'
}

/// The rows of the image that hold no galaxy.
pub open spec fn empty_rows(image: GridView<char>) -> Set<usize> {
    Set::new(|r: usize| r < image.rows() && row_is_empty(image, r))
}

/// The columns of the image that hold no galaxy.
pub open spec fn empty_cols(image: GridView<char>) -> Set<usize> {
    Set::new(|c: usize| c < image.cols() && col_is_empty(image, c))
}

/// The galaxies among the first `k` positions of the image, in row-major
/// order.
pub open spec fn galaxies_among(image: GridView<char>, k: nat) -> Seq<Position>
    decreases k,
{
    if k == 0 {
        Seq::empty()
    } else {
        let before = galaxies_among(image, (k - 1) as nat);
        let p = image.positions()[k - 1];
        if image.at(p) == '#' {
            before.push(p)
        } else {
            before
        }
    }
}

/// The positions of all galaxies of the image, in row-major order.
pub open spec fn galaxies(image: GridView<char>) -> Seq<Position> {
    galaxies_among(image, image.positions().len())
}

/// The pairs of positions whose first member is among the first `n` of
/// `positions` and whose second member comes later: ordered by the first
/// member, then by the second.
pub open spec fn pairs_among(positions: Seq<Position>, n: nat) -> Seq<(Position, Position)>
    decreases n,
{
    if n == 0 {
        Seq::empty()
    } else {
        pairs_among(positions, (n - 1) as nat) + Seq::new(
            (positions.len() - n) as nat,
            |t: int| (positions[n - 1], positions[n + t]),
        )
    }
}

/// The pairs of `positions`, each pair once.
pub open spec fn pairs_of(positions: Seq<Position>) -> Seq<(Position, Position)> {
    pairs_among(positions, positions.len())
}

/// How many members of `set` lie from `lo` up to, but not including, `hi`.
pub open spec fn count_between(set: Set<usize>, lo: int, hi: int) -> nat
    decreases hi - lo,
{
    if hi <= lo {
        0
    } else {
        count_between(set, lo, hi - 1) + if set.contains((hi - 1) as usize) {
            1nat
        } else {
            0nat
        }
    }
}

/// The distance between the coordinates `a` and `b` along one axis: their
/// difference, and `expansion - 1` more for every empty line from the smaller
/// one up to, but not including, the larger one.
pub open spec fn axis_distance(a: usize, b: usize, empties: Set<usize>, expansion: int) -> int {
    let lo = if a < b {
        a as int
    } else {
        b as int
    };
    let hi = if a < b {
        b as int
    } else {
        a as int
    };
    (hi - lo) + count_between(empties, lo, hi) * (expansion - 1)
}

/// The distance between two galaxies: along the rows, plus along the columns.
pub open spec fn distance(
    from: Position,
    to: Position,
    rows: Set<usize>,
    cols: Set<usize>,
    expansion: int,
) -> int {
    axis_distance(from.0, to.0, rows, expansion) + axis_distance(from.1, to.1, cols, expansion)
}

/// The sum of the distances of `pairs`. `Overflow` as soon as a distance does
/// not fit in 32 bits or the sum does not fit in 64 bits.
pub open spec fn total_distance(
    pairs: Seq<(Position, Position)>,
    rows: Set<usize>,
    cols: Set<usize>,
    expansion: int,
) -> Result<i64, GalaxyError>
    decreases pairs.len(),
{
    if pairs.len() == 0 {
        Ok(0)
    } else {
        match total_distance(pairs.drop_last(), rows, cols, expansion) {
            Err(e) => Err(e),
            Ok(total) => {
                let d = distance(pairs.last().0, pairs.last().1, rows, cols, expansion);
                if i32::MIN <= d <= i32::MAX && i64::MIN <= total + d <= i64::MAX {
                    Ok((total + d) as i64)
                } else {
                    Err(GalaxyError::Overflow)
                }
            },
        }
    }
}

/// The sum of the distances between all pairs of galaxies of the image in
/// `text`, where every empty row and column counts as `expansion` of them.
pub open spec fn solved(text: Seq<char>, expansion: int) -> Result<i64, GalaxyError> {
    let cells = lines_of(text);
    if !rectangular(cells) {
        Err(GalaxyError::MalformedGrid)
    } else {
        let image = GridView { cells };
        total_distance(
            pairs_of(galaxies(image)),
            empty_rows(image),
            empty_cols(image),
            expansion,
        )
    }
}

/// `num::abs` returns the number itself where it is not negative, and else the
/// number without its sign. The least number of the type has no positive
/// counterpart and is left out.
#[verifier::external_body]
fn magnitude(x: i128) -> (r: i128)
    requires
        x > i128::MIN,
    ensures
        r == if x < 0 {
            -x
        } else {
            x as int
        },
{
    num::abs(x)
}

impl Grid<char> {
    /// The first column of `row` that holds `t`, or `None` when the row holds
    /// it nowhere (or lies outside the grid).
    pub fn find_col(&self, row: usize, t: &char) -> (r: Option<usize>)
        requires
            self@.wf(),
        ensures
            match r {
                Some(c) => {
                    &&& self@.has((row, c))
                    &&& self@.at((row, c)) == *t
                    &&& forall|k: usize| k < c ==> #[trigger] self@.at((row, k)) != *t
                },
                None => forall|k: usize|
                    self@.has((row, k)) ==> #[trigger] self@.at((row, k)) != *t,
            },
    {
        let (rows, cols) = self.shape();
        let mut c: usize = 0;
        while c < cols
            invariant
                self@.wf(),
                rows == self@.rows(),
                cols == self@.cols(),
                c <= cols,
                forall|k: usize| k < c && row < rows ==> #[trigger] self@.at((row, k)) != *t,
            decreases cols - c,
        {
            match self.get(&(row, c)) {
                Some(v) => {
                    if v == *t {
                        return Some(c);
                    }
                },
                None => {},
            }
            c += 1;
        }
        None
    }

    /// The first row of column `col` that holds `t`, or `None` when the column
    /// holds it nowhere (or lies outside the grid).
    pub fn find_row(&self, col: usize, t: &char) -> (r: Option<usize>)
        requires
            self@.wf(),
        ensures
            match r {
                Some(row) => {
                    &&& self@.has((row, col))
                    &&& self@.at((row, col)) == *t
                    &&& forall|k: usize| k < row ==> #[trigger] self@.at((k, col)) != *t
                },
                None => forall|k: usize|
                    self@.has((k, col)) ==> #[trigger] self@.at((k, col)) != *t,
            },
    {
        let (rows, cols) = self.shape();
        let mut row: usize = 0;
        while row < rows
            invariant
                self@.wf(),
                rows == self@.rows(),
                cols == self@.cols(),
                row <= rows,
                forall|k: usize| k < row && col < cols ==> #[trigger] self@.at((k, col)) != *t,
            decreases rows - row,
        {
            match self.get(&(row, col)) {
                Some(v) => {
                    if v == *t {
                        return Some(row);
                    }
                },
                None => {},
            }
            row += 1;
        }
        None
    }
}

/// The rows and the columns of the image that hold no galaxy.
pub fn get_empties(grid: &Grid<char>) -> (r: (HashSet<usize>, HashSet<usize>))
    requires
        grid@.wf(),
    ensures
        r.0@ == empty_rows(grid@),
        r.1@ == empty_cols(grid@),
{
    let mut rows_found: HashSet<usize> = HashSet::new();
    let mut cols_found: HashSet<usize> = HashSet::new();
    let (rows, cols) = grid.shape();
    let mut i: usize = 0;
    while i < rows
        invariant
            grid@.wf(),
            rows == grid@.rows(),
            cols == grid@.cols(),
            i <= rows,
            rows_found@ == Set::new(|r: usize| r < i && row_is_empty(grid@, r)),
        decreases rows - i,
    {
        let ghost before = rows_found@;
        if grid.find_col(i, &'#').is_none() {
            rows_found.insert(i);
            proof {
                assert(row_is_empty(grid@, i));
                assert(rows_found@ =~= Set::new(|r: usize| r < i + 1 && row_is_empty(grid@, r)));
            }
        } else {
            proof {
                assert(!row_is_empty(grid@, i));
                assert(before =~= Set::new(|r: usize| r < i + 1 && row_is_empty(grid@, r)));
            }
        }
        i += 1;
    }
    let mut j: usize = 0;
    while j < cols
        invariant
            grid@.wf(),
            rows == grid@.rows(),
            cols == grid@.cols(),
            j <= cols,
            cols_found@ == Set::new(|c: usize| c < j && col_is_empty(grid@, c)),
        decreases cols - j,
    {
        let ghost before = cols_found@;
        if grid.find_row(j, &'#').is_none() {
            cols_found.insert(j);
            proof {
                assert(col_is_empty(grid@, j));
                assert(cols_found@ =~= Set::new(|c: usize| c < j + 1 && col_is_empty(grid@, c)));
            }
        } else {
            proof {
                assert(!col_is_empty(grid@, j));
                assert(before =~= Set::new(|c: usize| c < j + 1 && col_is_empty(grid@, c)));
            }
        }
        j += 1;
    }
    proof {
        assert(rows_found@ =~= empty_rows(grid@));
        assert(cols_found@ =~= empty_cols(grid@));
    }
    (rows_found, cols_found)
}

/// The positions of all galaxies of the image, in row-major order.
pub fn get_galaxies(grid: &Grid<char>) -> (positions: Vec<Position>)
    requires
        grid@.wf(),
    ensures
        positions@ == galaxies(grid@),
{
    let mut positions: Vec<Position> = Vec::new();
    let mut it = grid.iter_positions();
    let ghost all = grid@.positions();
    loop
        invariant
            grid@.wf(),
            all == grid@.positions(),
            it.grid() == grid@,
            0 <= it.index() <= all.len(),
            it.remaining() == all.skip(it.index()),
            positions@ == galaxies_among(grid@, it.index() as nat),
        decreases all.len() - it.index(),
    {
        let ghost k = it.index();
        match it.next() {
            Some(p) => {
                proof {
                    assert(p == all[k]);
                    grid@.lemma_index_position(k);
                }
                match grid.get(&p) {
                    Some(c) => {
                        if c == '#' {
                            positions.push(p);
                        }
                    },
                    None => {},
                }
            },
            None => {
                proof {
                    assert(k == all.len());
                }
                return positions;
            },
        }
    }
}

/// All pairs of `positions`, each pair once: ordered by the first member, then
/// by the second.
pub fn get_pairs(positions: &Vec<Position>) -> (pairs: Vec<(Position, Position)>)
    ensures
        pairs@ == pairs_of(positions@),
{
    let mut pairs: Vec<(Position, Position)> = Vec::new();
    let n: usize = positions.len();
    let mut i: usize = 0;
    while i < n
        invariant
            n == positions@.len(),
            i <= n,
            pairs@ == pairs_among(positions@, i as nat),
        decreases n - i,
    {
        let mut j: usize = i + 1;
        let ghost before = pairs@;
        while j < n
            invariant
                n == positions@.len(),
                i < n,
                i + 1 <= j <= n,
                pairs@ == before + Seq::new(
                    (j - i - 1) as nat,
                    |t: int| (positions@[i as int], positions@[i + 1 + t]),
                ),
            decreases n - j,
        {
            pairs.push((positions[i], positions[j]));
            proof {
                assert(pairs@ =~= before + Seq::new(
                    (j + 1 - i - 1) as nat,
                    |t: int| (positions@[i as int], positions@[i + 1 + t]),
                ));
            }
            j += 1;
        }
        proof {
            assert(pairs@ =~= pairs_among(positions@, (i + 1) as nat));
        }
        i += 1;
    }
    pairs
}

/// The distance between the coordinates `a` and `b` along one axis.
pub fn get_axis_distance(a: usize, b: usize, empties: &HashSet<usize>, expansion_size: i32) -> (r:
    i128)
    ensures
        r == axis_distance(a, b, empties@, expansion_size as int),
        -0x1_0000_0000_0000_0000_0000_0000 <= r <= 0x1_0000_0000_0000_0000_0000_0000,
{
    let lo: usize = if a < b {
        a
    } else {
        b
    };
    let hi: usize = if a < b {
        b
    } else {
        a
    };
    let span: i128 = magnitude(a as i128 - b as i128);
    let mut found: usize = 0;
    let mut i: usize = lo;
    while i < hi
        invariant
            lo <= i <= hi,
            found == count_between(empties@, lo as int, i as int),
            found <= i - lo,
        decreases hi - i,
    {
        if empties.contains(&i) {
            found += 1;
        }
        i += 1;
    }
    let grow: i128 = expansion_size as i128 - 1;
    assert(-0x1_0000_0000_0000_0000_0000_0000 + 0x1_0000_0000_0000_0000 <= found * grow
        <= 0x1_0000_0000_0000_0000_0000_0000 - 0x1_0000_0000_0000_0000) by (nonlinear_arith)
        requires
            0 <= found <= 0xffff_ffff_ffff_ffff,
            -0x8000_0001 <= grow <= 0x7fff_ffff,
    ;
    span + found as i128 * grow
}

/// The distance between two galaxies, where every row of `empty_rows` and every
/// column of `empty_cols` between them counts as `expansion_size` of them.
/// `None` when it does not fit in 32 bits.
pub fn get_distance(
    from: &Position,
    to: &Position,
    empty_rows: &HashSet<usize>,
    empty_cols: &HashSet<usize>,
    expansion_size: &i32,
) -> (r: Option<i32>)
    ensures
        match r {
            Some(d) => d == distance(*from, *to, empty_rows@, empty_cols@, *expansion_size as int),
            None => !(i32::MIN <= distance(
                *from,
                *to,
                empty_rows@,
                empty_cols@,
                *expansion_size as int,
            ) <= i32::MAX),
        },
{
    let row_diff = get_axis_distance(from.0, to.0, empty_rows, *expansion_size);
    let col_diff = get_axis_distance(from.1, to.1, empty_cols, *expansion_size);
    let d: i128 = row_diff + col_diff;
    if d < i32::MIN as i128 || d > i32::MAX as i128 {
        None
    } else {
        Some(d as i32)
    }
}

/// An overflow among the first pairs is the outcome for all of them.
pub proof fn lemma_total_error_stays(
    pairs: Seq<(Position, Position)>,
    n: int,
    rows: Set<usize>,
    cols: Set<usize>,
    expansion: int,
)
    requires
        0 <= n <= pairs.len(),
        total_distance(pairs.take(n), rows, cols, expansion) is Err,
    ensures
        total_distance(pairs, rows, cols, expansion) == total_distance(
            pairs.take(n),
            rows,
            cols,
            expansion,
        ),
    decreases pairs.len() - n,
{
    if n < pairs.len() {
        assert(pairs.take(n + 1).drop_last() =~= pairs.take(n));
        lemma_total_error_stays(pairs, n + 1, rows, cols, expansion);
    } else {
        assert(pairs.take(n) =~= pairs);
    }
}

/// The sum of the distances between all pairs of galaxies of the image in `s`,
/// where every empty row and column counts as `expansion_size` of them.
pub fn solve(s: &str, expansion_size: &i32) -> (r: Result<i64, GalaxyError>)
    ensures
        r == solved(s@, *expansion_size as int),
{
    let grid = match Grid::from_str(s) {
        Ok(g) => g,
        Err(e) => {
            return Err(GalaxyError::MalformedGrid);
        },
    };
    let (rows_found, cols_found) = get_empties(&grid);
    let found = get_galaxies(&grid);
    let pairs = get_pairs(&found);
    let ghost image = GridView { cells: lines_of(s@) };
    proof {
        assert(grid@ == image);
    }
    let mut total: i64 = 0;
    let mut i: usize = 0;
    proof {
        assert(pairs@.take(0) =~= Seq::<(Position, Position)>::empty());
    }
    while i < pairs.len()
        invariant
            i <= pairs.len(),
            rectangular(lines_of(s@)),
            image == (GridView { cells: lines_of(s@) }),
            pairs@ == pairs_of(galaxies(image)),
            rows_found@ == empty_rows(image),
            cols_found@ == empty_cols(image),
            total_distance(pairs@.take(i as int), rows_found@, cols_found@, *expansion_size as int)
                == Ok::<i64, GalaxyError>(total),
        decreases pairs.len() - i,
    {
        proof {
            assert(pairs@.take(i + 1).drop_last() =~= pairs@.take(i as int));
            assert(pairs@.take(i + 1).last() == pairs@[i as int]);
        }
        let (from, to) = pairs[i];
        let next = match get_distance(&from, &to, &rows_found, &cols_found, expansion_size) {
            Some(d) => total.checked_add(d as i64),
            None => None,
        };
        match next {
            Some(sum) => {
                total = sum;
            },
            None => {
                proof {
                    assert(total_distance(
                        pairs@.take(i + 1),
                        rows_found@,
                        cols_found@,
                        *expansion_size as int,
                    ) is Err);
                    lemma_total_error_stays(
                        pairs@,
                        i + 1,
                        rows_found@,
                        cols_found@,
                        *expansion_size as int,
                    );
                }
                return Err(GalaxyError::Overflow);
            },
        }
        i += 1;
    }
    proof {
        assert(pairs@.take(pairs.len() as int) =~= pairs@);
    }
    Ok(total)
}

/// The sum of the distances when every empty row and column counts twice, in
/// decimal.
pub fn part_1(s: &str) -> (r: Result<String, GalaxyError>)
    ensures
        match r {
            Ok(answer) => solved(s@, 2) matches Ok(n) && answer@ == signed_decimal(n as int),
            Err(e) => solved(s@, 2) == Err::<i64, GalaxyError>(e),
        },
{
    match solve(s, &2) {
        Ok(total) => Ok(signed_decimal_string(total)),
        Err(e) => Err(e),
    }
}

/// The sum of the distances when every empty row and column counts a million
/// times, in decimal.
pub fn part_2(s: &str) -> (r: Result<String, GalaxyError>)
    ensures
        match r {
            Ok(answer) => solved(s@, 1000000) matches Ok(n) && answer@ == signed_decimal(n as int),
            Err(e) => solved(s@, 1000000) == Err::<i64, GalaxyError>(e),
        },
{
    match solve(s, &1000000) {
        Ok(total) => Ok(signed_decimal_string(total)),
        Err(e) => Err(e),
    }
}

} // verus!
