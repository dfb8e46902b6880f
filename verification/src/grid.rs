//! A rectangular grid of values with bounds-checked access.
//!
//! A position is a `(row, column)` pair. The grid is modelled as a sequence of
//! rows, all of one length; every contract below speaks of that model.

use vstd::prelude::*;
use crate::text::{chars_of, lemma_lines_fit, lemma_total_len_rectangle, lines, lines_of};

verus! {

/// A `(row, column)` pair.
pub type Position = (usize, usize);

/// Row-major order on positions: `a` is visited before `b`.
pub open spec fn precedes(a: Position, b: Position) -> bool {
    a.0 < b.0 || (a.0 == b.0 && a.1 < b.1)
}

/// The offsets that `neighbors` tries, in the order of its slots.
pub open spec fn neighbor_offsets(incl_diag: bool) -> Seq<(i32, i32)> {
    if incl_diag {
        seq![
            (-1i32, -1i32),
            (-1i32, 0i32),
            (-1i32, 1i32),
            (0i32, -1i32),
            (0i32, 1i32),
            (1i32, -1i32),
            (1i32, 0i32),
            (1i32, 1i32),
        ]
    } else {
        seq![(-1i32, 0i32), (0i32, -1i32), (0i32, 1i32), (1i32, 0i32)]
    }
}

/// Why a list of rows is not a grid.
#[derive(Clone, Copy, Debug, PartialEq, Eq, Structural)]
pub enum GridError {
    /// Two rows differ in length.
    MalformedGrid,
}

/// A rectangular container of values.
#[derive(Clone, Debug)]
pub struct Grid<T> {
    vec: Vec<Vec<T>>,
}

/// The rows held by `v`, each as a sequence.
pub open spec fn rows_of<T>(v: Seq<Vec<T>>) -> Seq<Seq<T>> {
    Seq::new(v.len(), |i: int| v[i]@)
}

/// Whether all rows of `rows` have one length.
pub open spec fn rectangular<T>(rows: Seq<Seq<T>>) -> bool {
    forall|i: int| 0 <= i < rows.len() ==> (#[trigger] rows[i]).len() == rows[0].len()
}

/// What a grid is to its contracts: its rows, top to bottom.
pub struct GridView<T> {
    pub cells: Seq<Seq<T>>,
}

impl<T> GridView<T> {
    /// Every row has the same length, and both the number of rows and their
    /// length fit in `usize`.
    pub open spec fn wf(self) -> bool {
        &&& rectangular(self.cells)
        &&& self.rows() <= usize::MAX
        &&& self.cols() <= usize::MAX
    }

    /// The number of rows.
    pub open spec fn rows(self) -> nat {
        self.cells.len()
    }

    /// The number of columns; 0 for a grid without rows.
    pub open spec fn cols(self) -> nat {
        if self.cells.len() == 0 {
            0
        } else {
            self.cells[0].len()
        }
    }

    /// Whether `p` lies inside the grid.
    pub open spec fn has(self, p: Position) -> bool {
        p.0 < self.rows() && p.1 < self.cols()
    }

    /// The value stored at `p`.
    pub open spec fn at(self, p: Position) -> T
        recommends
            self.has(p),
    {
        self.cells[p.0 as int][p.1 as int]
    }

    /// `p` moved by `offset`, if that lands inside the grid.
    pub open spec fn shifted(self, p: Position, offset: (i32, i32)) -> Option<Position> {
        let row = p.0 + offset.0;
        let col = p.1 + offset.1;
        if 0 <= row < self.rows() && 0 <= col < self.cols() {
            Some((row as usize, col as usize))
        } else {
            None
        }
    }

    /// All positions of the grid in row-major order.
    pub open spec fn positions(self) -> Seq<Position> {
        Seq::new(
            self.rows() * self.cols(),
            |k: int| ((k / self.cols() as int) as usize, (k % self.cols() as int) as usize),
        )
    }

    /// All values of the grid in row-major order.
    pub open spec fn items(self) -> Seq<T> {
        Seq::new(self.positions().len(), |k: int| self.at(self.positions()[k]))
    }

    /// The place of `p` in row-major order.
    pub open spec fn index_of(self, p: Position) -> int {
        p.0 * self.cols() + p.1
    }

    /// A position inside the grid stands in `positions()` at its row-major
    /// index.
    pub proof fn lemma_position_index(self, p: Position)
        requires
            self.has(p),
        ensures
            0 <= self.index_of(p) < self.positions().len(),
            self.positions()[self.index_of(p)] == p,
    {
        let c = self.cols() as int;
        let r = self.rows() as int;
        let k = self.index_of(p);
        assert(p.0 * c + p.1 < r * c) by (nonlinear_arith)
            requires
                0 <= p.0 < r,
                0 <= p.1 < c,
        ;
        assert(0 <= p.0 * c) by (nonlinear_arith)
            requires
                0 <= p.0,
                0 <= c,
        ;
        vstd::arithmetic::div_mod::lemma_fundamental_div_mod_converse(k, c, p.0 as int, p.1 as int);
    }

    /// The entry of `positions()` at index `k` lies inside the grid, and `k` is
    /// its row-major index.
    pub proof fn lemma_index_position(self, k: int)
        requires
            self.wf(),
            0 <= k < self.positions().len(),
        ensures
            self.has(self.positions()[k]),
            self.index_of(self.positions()[k]) == k,
    {
        let c = self.cols() as int;
        let r = self.rows() as int;
        assert(c > 0) by (nonlinear_arith)
            requires
                0 <= k < r * c,
                0 <= c,
        ;
        vstd::arithmetic::div_mod::lemma_fundamental_div_mod(k, c);
        vstd::arithmetic::div_mod::lemma_mod_pos_bound(k, c);
        vstd::arithmetic::div_mod::lemma_div_pos_is_pos(k, c);
        let q = k / c;
        assert(q < r) by (nonlinear_arith)
            requires
                k == c * q + k % c,
                0 <= k % c,
                k < r * c,
                0 < c,
        ;
        assert(c * q == q * c) by (nonlinear_arith);
    }

    /// Row-major enumeration: `positions()` lists every position inside the
    /// grid, `rows() * cols()` of them, each exactly once, rows from the top
    /// and, within a row, columns from the left.
    pub proof fn lemma_positions_row_major(self)
        requires
            self.wf(),
        ensures
            self.positions().len() == self.rows() * self.cols(),
            self.positions().no_duplicates(),
            forall|k: int| 0 <= k < self.positions().len() ==> self.has(#[trigger] self.positions()[k]),
            forall|p: Position| self.has(p) ==> #[trigger] self.positions().contains(p),
            forall|i: int, j: int|
                0 <= i < j < self.positions().len() ==> precedes(
                    #[trigger] self.positions()[i],
                    #[trigger] self.positions()[j],
                ),
    {
        let ps = self.positions();
        let c = self.cols() as int;
        assert forall|k: int| 0 <= k < ps.len() implies self.has(#[trigger] ps[k]) by {
            self.lemma_index_position(k);
        }
        assert forall|p: Position| self.has(p) implies #[trigger] ps.contains(p) by {
            self.lemma_position_index(p);
        }
        assert forall|i: int, j: int| 0 <= i < j < ps.len() implies precedes(
            #[trigger] ps[i],
            #[trigger] ps[j],
        ) by {
            self.lemma_index_position(i);
            self.lemma_index_position(j);
            let a = ps[i];
            let b = ps[j];
            if !precedes(a, b) {
                if a.0 == b.0 {
                    assert(a.1 >= b.1);
                    assert(false);
                } else {
                    assert(a.0 >= b.0 + 1);
                    assert(a.0 * c >= (b.0 + 1) * c) by (nonlinear_arith)
                        requires
                            a.0 >= b.0 + 1,
                            c >= 0,
                    ;
                    assert((b.0 + 1) * c == b.0 * c + c) by (nonlinear_arith);
                    assert(false);
                }
            }
        }
        assert forall|i: int, j: int| 0 <= i < ps.len() && 0 <= j < ps.len() && i != j implies ps[i]
            != ps[j] by {
            if i < j {
                assert(precedes(ps[i], ps[j]));
            } else {
                assert(precedes(ps[j], ps[i]));
            }
        }
    }
}

impl<T> GridView<T> {
    /// Cells of the grid that all differ are no more than the grid has.
    pub proof fn lemma_distinct_cells_fit(self, cells: Seq<Position>)
        requires
            self.wf(),
            cells.no_duplicates(),
            forall|t: int| 0 <= t < cells.len() ==> self.has(#[trigger] cells[t]),
        ensures
            cells.len() <= self.rows() * self.cols(),
    {
        let x = cells.to_set();
        let f = |p: Position| self.index_of(p);
        let y = x.map(f);
        let n = (self.rows() * self.cols()) as int;
        let range = vstd::set_lib::set_int_range(0, n);
        cells.unique_seq_to_set();
        vstd::seq_lib::seq_to_set_is_finite(cells);
        assert forall|p: Position| x.contains(p) implies self.has(p) by {
            let t = choose|t: int| 0 <= t < cells.len() && cells[t] == p;
            assert(self.has(cells[t]));
        }
        assert(vstd::relations::injective_on(f, x)) by {
            assert forall|p: Position, q: Position|
                x.contains(p) && x.contains(q) && #[trigger] f(p) == #[trigger] f(q) implies p
                == q by {
                self.lemma_position_index(p);
                self.lemma_position_index(q);
            }
        }
        vstd::set_lib::lemma_map_size(x, y, f);
        assert(y.subset_of(range)) by {
            assert forall|i: int| y.contains(i) implies range.contains(i) by {
                let p = choose|p: Position| x.contains(p) && f(p) == i;
                self.lemma_position_index(p);
            }
        }
        assert(0 <= n);
        vstd::set_lib::lemma_int_range(0, n);
        vstd::set_lib::lemma_len_subset(y, range);
    }
}

impl<T> Grid<T> {
    /// The rows of the grid, top to bottom.
    pub closed spec fn view(&self) -> GridView<T> {
        GridView { cells: rows_of(self.vec@) }
    }

    /// The number of rows and of columns fit in `usize`.
    pub proof fn lemma_shape_fits(&self)
        ensures
            self@.rows() <= usize::MAX,
            self@.cols() <= usize::MAX,
    {
        assert(self.vec.len() == self.vec@.len());
        if self.vec@.len() > 0 {
            assert(self@.cells[0] == self.vec@[0]@);
            assert(self.vec@[0].len() == self.vec@[0]@.len());
        }
    }

    /// Builds a grid from its rows, top to bottom. Fails when two rows differ in
    /// length.
    pub fn from_rows(rows: Vec<Vec<T>>) -> (r: Result<Grid<T>, GridError>)
        ensures
            match r {
                Ok(g) => rectangular(rows_of(rows@)) && g@.cells == rows_of(rows@) && g@.wf(),
                Err(e) => e == GridError::MalformedGrid && !rectangular(rows_of(rows@)),
            },
    {
        let n: usize = rows.len();
        let mut i: usize = 1;
        while i < n
            invariant
                n == rows@.len(),
                1 <= i,
                forall|j: int| 0 <= j < i && j < n ==> (#[trigger] rows@[j])@.len() == rows@[0]@.len(),
            decreases n - i,
        {
            if rows[i].len() != rows[0].len() {
                assert(rows_of(rows@)[i as int].len() != rows_of(rows@)[0].len());
                return Err(GridError::MalformedGrid);
            }
            i += 1;
        }
        let g = Grid { vec: rows };
        proof {
            g.lemma_shape_fits();
        }
        Ok(g)
    }

    /// The number of rows and the number of columns.
    pub fn shape(&self) -> (r: (usize, usize))
        ensures
            r.0 == self@.rows(),
            r.1 == self@.cols(),
    {
        if self.vec.len() == 0 {
            (0, 0)
        } else {
            assert(self@.cells[0] == self.vec@[0]@);
            (self.vec.len(), self.vec[0].len())
        }
    }

    /// Whether `posn` lies inside the grid.
    pub fn is_valid(&self, posn: &Position) -> (r: bool)
        ensures
            r == self@.has(*posn),
    {
        let (row_n, col_n) = self.shape();
        posn.0 < row_n && posn.1 < col_n
    }

    /// Moves `posn` by `offset` (rows, then columns). Returns the new position
    /// when it lies inside the grid and `None` otherwise.
    pub fn apply_offset(&self, posn: &Position, offset: &(i32, i32)) -> (r: Option<Position>)
        ensures
            r == self@.shifted(*posn, *offset),
            r matches Some(p) ==> self@.has(p) && p.0 == posn.0 + offset.0 && p.1 == posn.1
                + offset.1,
            r is None ==> !(0 <= posn.0 + offset.0 < self@.rows() && 0 <= posn.1 + offset.1
                < self@.cols()),
    {
        let (n_rows, n_cols) = self.shape();
        let new_row: i128 = posn.0 as i128 + offset.0 as i128;
        let new_col: i128 = posn.1 as i128 + offset.1 as i128;
        if new_row >= 0 && new_row < n_rows as i128 && new_col >= 0 && new_col < n_cols as i128 {
            Some((new_row as usize, new_col as usize))
        } else {
            None
        }
    }

    /// The positions around `posn`: above, left, right and below it, or all
    /// eight around it when `incl_diag` is set. Slot `i` holds `posn` moved by
    /// `neighbor_offsets(incl_diag)[i]`, or `None` where that leaves the grid.
    pub fn neighbors(&self, posn: &Position, incl_diag: bool) -> (r: Vec<Option<Position>>)
        ensures
            r@.len() == neighbor_offsets(incl_diag).len(),
            forall|i: int|
                0 <= i < r@.len() ==> #[trigger] r@[i] == self@.shifted(
                    *posn,
                    neighbor_offsets(incl_diag)[i],
                ),
    {
        let mut n: Vec<Option<Position>> = Vec::new();
        let mut r_diff: i32 = -1;
        while r_diff <= 1
            invariant
                -1 <= r_diff <= 2,
                n@ == Seq::new(
                    n@.len(),
                    |i: int| self@.shifted(*posn, neighbor_offsets(incl_diag)[i]),
                ),
                incl_diag ==> n@.len() == (if r_diff == -1 {
                    0int
                } else if r_diff == 0 {
                    3int
                } else if r_diff == 1 {
                    5int
                } else {
                    8int
                }),
                !incl_diag ==> n@.len() == (if r_diff == -1 {
                    0int
                } else if r_diff == 0 {
                    1int
                } else if r_diff == 1 {
                    3int
                } else {
                    4int
                }),
            decreases 2 - r_diff,
        {
            let mut c_diff: i32 = -1;
            let ghost base = n@.len();
            while c_diff <= 1
                invariant
                    -1 <= r_diff <= 1,
                    -1 <= c_diff <= 2,
                    n@ == Seq::new(
                        n@.len(),
                        |i: int| self@.shifted(*posn, neighbor_offsets(incl_diag)[i]),
                    ),
                    incl_diag ==> base == (if r_diff == -1 {
                        0int
                    } else if r_diff == 0 {
                        3int
                    } else {
                        5int
                    }),
                    !incl_diag ==> base == (if r_diff == -1 {
                        0int
                    } else if r_diff == 0 {
                        1int
                    } else {
                        3int
                    }),
                    incl_diag && r_diff != 0 ==> n@.len() == base + (c_diff + 1),
                    incl_diag && r_diff == 0 ==> n@.len() == base + (if c_diff <= 0 {
                        c_diff + 1
                    } else {
                        c_diff as int
                    }),
                    !incl_diag && r_diff != 0 ==> n@.len() == base + (if c_diff <= 0 {
                        0int
                    } else {
                        1int
                    }),
                    !incl_diag && r_diff == 0 ==> n@.len() == base + (if c_diff <= -1 {
                        0int
                    } else if c_diff <= 1 {
                        1int
                    } else {
                        2int
                    }),
                decreases 2 - c_diff,
            {
                let skip = (r_diff == 0 && c_diff == 0) || (!incl_diag && r_diff != 0 && c_diff
                    != 0);
                if !skip {
                    let slot = self.apply_offset(posn, &(r_diff, c_diff));
                    proof {
                        assert(neighbor_offsets(incl_diag)[n@.len() as int] == (r_diff, c_diff));
                        assert(n@.push(slot) =~= Seq::new(
                            n@.len() + 1,
                            |i: int| self@.shifted(*posn, neighbor_offsets(incl_diag)[i]),
                        ));
                    }
                    n.push(slot);
                }
                c_diff += 1;
            }
            r_diff += 1;
        }
        n
    }
}

impl<T> Grid<T> {
    /// A cursor over all positions of the grid in row-major order, starting at
    /// the top left.
    pub fn iter_positions(&self) -> (it: GridPositionIterator<'_, T>)
        ensures
            it.grid() == self@,
            it.index() == 0,
            it.remaining() == self@.positions(),
    {
        let it = GridPositionIterator { grid: self, current_row: 0, current_col: 0 };
        proof {
            if self@.has((0, 0)) {
                assert(self@.index_of((0, 0)) == 0) by (nonlinear_arith)
                    requires
                        self@.index_of((0, 0)) == 0 * self@.cols() + 0,
                ;
            } else {
                assert(self@.rows() * self@.cols() == 0) by (nonlinear_arith)
                    requires
                        self@.rows() == 0 || self@.cols() == 0,
                ;
            }
            assert(it.remaining() =~= self@.positions());
        }
        it
    }
}

impl<T: Copy> Grid<T> {
    /// The value stored at `posn`, or `None` when `posn` lies outside the grid.
    pub fn get(&self, posn: &Position) -> (r: Option<T>)
        requires
            self@.wf(),
        ensures
            r == if self@.has(*posn) {
                Some(self@.at(*posn))
            } else {
                None
            },
    {
        let (row_n, col_n) = self.shape();
        if posn.0 >= row_n || posn.1 >= col_n {
            None
        } else {
            assert(self@.cells[posn.0 as int] == self.vec@[posn.0 as int]@);
            Some(self.vec[posn.0][posn.1])
        }
    }

    /// A cursor over all values of the grid in row-major order, starting at the
    /// top left.
    pub fn iter_items(&self) -> (it: GridItemIterator<'_, T>)
        requires
            self@.wf(),
        ensures
            it.grid() == self@,
            it.index() == 0,
            it.remaining() == self@.items(),
    {
        let it = GridItemIterator { cursor: self.iter_positions() };
        proof {
            assert(it.remaining() =~= self@.items());
        }
        it
    }
}

impl<T: Copy + PartialEq> Grid<T> {
    /// The first position in row-major order that holds a value equal to `t`,
    /// or `None` when no position does.
    pub fn find(&self, t: &T) -> (r: Option<Position>)
        requires
            self@.wf(),
            vstd::laws_eq::obeys_concrete_eq::<T>(),
        ensures
            match r {
                Some(p) => {
                    &&& self@.has(p)
                    &&& self@.at(p) == *t
                    &&& forall|q: Position|
                        self@.has(q) && precedes(q, p) ==> #[trigger] self@.at(q) != *t
                },
                None => forall|q: Position| self@.has(q) ==> #[trigger] self@.at(q) != *t,
            },
    {
        let (row_n, col_n) = self.shape();
        let mut row: usize = 0;
        while row < row_n
            invariant
                self@.wf(),
                row <= row_n,
                row_n == self@.rows(),
                col_n == self@.cols(),
                vstd::laws_eq::obeys_concrete_eq::<T>(),
                forall|q: Position| self@.has(q) && q.0 < row ==> #[trigger] self@.at(q) != *t,
            decreases row_n - row,
        {
            let mut col: usize = 0;
            assert(self@.cells[row as int] == self.vec@[row as int]@);
            while col < col_n
                invariant
                    self@.wf(),
                    row < row_n,
                    col <= col_n,
                    row_n == self@.rows(),
                    col_n == self@.cols(),
                    self@.cells[row as int] == self.vec@[row as int]@,
                    vstd::laws_eq::obeys_concrete_eq::<T>(),
                    forall|q: Position|
                        self@.has(q) && precedes(q, (row, col)) ==> #[trigger] self@.at(q) != *t,
                decreases col_n - col,
            {
                proof {
                    reveal(vstd::laws_eq::obeys_concrete_eq);
                }
                if self.vec[row][col] == *t {
                    return Some((row, col));
                }
                col += 1;
            }
            row += 1;
        }
        None
    }
}

impl Grid<char> {
    /// Reads a grid from text: one row for each line, one cell for each
    /// character. Fails when two lines differ in length.
    pub fn from_str(s: &str) -> (r: Result<Grid<char>, GridError>)
        ensures
            match r {
                Ok(g) => {
                    &&& rectangular(lines_of(s@))
                    &&& g@.cells == lines_of(s@)
                    &&& g@.wf()
                    &&& g@.rows() * g@.cols() <= usize::MAX
                },
                Err(e) => e == GridError::MalformedGrid && !rectangular(lines_of(s@)),
            },
    {
        let text = chars_of(s);
        proof {
            lemma_lines_fit(s@);
            if rectangular(lines_of(s@)) {
                let cells = lines_of(s@);
                let cols: nat = if cells.len() == 0 {
                    0
                } else {
                    cells[0].len()
                };
                lemma_total_len_rectangle(cells, cols);
            }
        }
        Grid::from_rows(lines(&text))
    }
}

/// A cursor over the positions of a grid in row-major order.
pub struct GridPositionIterator<'a, T> {
    grid: &'a Grid<T>,
    current_row: usize,
    current_col: usize,
}

impl<'a, T> GridPositionIterator<'a, T> {
    /// The grid that the cursor walks.
    pub closed spec fn grid(&self) -> GridView<T> {
        self.grid@
    }

    /// How many positions the cursor has passed.
    pub closed spec fn index(&self) -> int {
        if self.grid@.has((self.current_row, self.current_col)) {
            self.grid@.index_of((self.current_row, self.current_col))
        } else {
            self.grid@.positions().len() as int
        }
    }

    /// The positions still to come, in order.
    pub open spec fn remaining(&self) -> Seq<Position> {
        self.grid().positions().skip(self.index())
    }

    /// The index lies within `positions()`, or just behind it.
    pub proof fn lemma_index_bounds(&self)
        ensures
            0 <= self.index() <= self.grid().positions().len(),
    {
        if self.grid@.has((self.current_row, self.current_col)) {
            self.grid@.lemma_position_index((self.current_row, self.current_col));
        }
    }

    /// Hands out the next position and moves on, or returns `None` once every
    /// position has been handed out.
    pub fn next(&mut self) -> (r: Option<Position>)
        ensures
            final(self).grid() == old(self).grid(),
            match r {
                Some(p) => {
                    &&& old(self).remaining().len() > 0
                    &&& p == old(self).remaining()[0]
                    &&& final(self).remaining() == old(self).remaining().drop_first()
                    &&& final(self).index() == old(self).index() + 1
                },
                None => old(self).remaining().len() == 0 && *final(self) == *old(self),
            },
    {
        let p = (self.current_row, self.current_col);
        proof {
            self.lemma_index_bounds();
        }
        if !self.grid.is_valid(&p) {
            return None;
        }
        let (n_row, n_col) = self.grid.shape();
        let ghost before = *self;
        let ghost c = n_col as int;
        if self.current_col == n_col - 1 {
            self.current_col = 0;
            self.current_row += 1;
        } else {
            self.current_col += 1;
        }
        proof {
            self.grid.lemma_shape_fits();
            self.grid@.lemma_position_index(p);
            let q = (self.current_row, self.current_col);
            assert((p.0 + 1) * c == p.0 * c + c) by (nonlinear_arith);
            if self.grid@.has(q) {
                assert(self.index() == before.index() + 1);
            } else {
                assert(p.0 + 1 == n_row);
                assert(p.1 + 1 == n_col);
                assert(self.index() == before.index() + 1);
            }
            assert(self.remaining() =~= before.remaining().drop_first());
        }
        Some(p)
    }
}

/// A cursor over the values of a grid in row-major order.
pub struct GridItemIterator<'a, T> {
    cursor: GridPositionIterator<'a, T>,
}

impl<'a, T: Copy> GridItemIterator<'a, T> {
    /// The grid that the cursor walks.
    pub closed spec fn grid(&self) -> GridView<T> {
        self.cursor.grid()
    }

    /// How many values the cursor has passed.
    pub closed spec fn index(&self) -> int {
        self.cursor.index()
    }

    /// The values still to come, in order.
    pub open spec fn remaining(&self) -> Seq<T> {
        self.grid().items().skip(self.index())
    }

    /// Hands out the next value and moves on, or returns `None` once every
    /// value has been handed out.
    pub fn next(&mut self) -> (r: Option<T>)
        requires
            old(self).grid().wf(),
        ensures
            final(self).grid() == old(self).grid(),
            match r {
                Some(v) => {
                    &&& old(self).remaining().len() > 0
                    &&& v == old(self).remaining()[0]
                    &&& final(self).remaining() == old(self).remaining().drop_first()
                    &&& final(self).index() == old(self).index() + 1
                },
                None => old(self).remaining().len() == 0 && *final(self) == *old(self),
            },
    {
        let ghost before = *self;
        proof {
            self.cursor.lemma_index_bounds();
        }
        match self.cursor.next() {
            Some(p) => {
                proof {
                    self.cursor.grid@.lemma_index_position(before.index());
                    assert(self.remaining() =~= before.remaining().drop_first());
                }
                self.cursor.grid.get(&p)
            },
            None => None,
        }
    }
}

} // verus!
