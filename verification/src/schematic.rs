//! An engine schematic: numbers written in a grid of characters count as part
//! numbers when a symbol stands next to them, and a `*` next to exactly two
//! numbers is a gear.

use vstd::prelude::*;
use crate::grid::{Position, rectangular, rows_of};
use crate::text::{
    is_numeric_char,
    lines_of,
    parse_small_number,
    signed_decimal,
    signed_decimal_string,
    slice_of,
    small_number_of,
    text_lines,
};

verus! {

/// What can go wrong with a schematic.
#[derive(Clone, Copy, Debug, PartialEq, Eq, Structural)]
pub enum SchematicError {
    /// The schematic has no line, or its first line is empty.
    Empty,
    /// Two lines differ in length.
    Ragged,
    /// A run of numeric characters writes no number of 32 bits.
    BadNumber,
    /// A sum or a product does not fit in 32 bits.
    Overflow,
}

/// `cells` is a schematic of `rows` rows and `cols` columns, at least one of
/// each.
pub open spec fn is_sheet(cells: Seq<Seq<char>>, rows: usize, cols: usize) -> bool {
    &&& cells.len() == rows
    &&& rows >= 1
    &&& cols >= 1
    &&& forall|r: int| 0 <= r < cells.len() ==> (#[trigger] cells[r]).len() == cols
}

/// A cursor over the cells around a stretch of one row, from column
/// `start_col` to column `end_col`: row by row, from the row above to the row
/// below, and in each row from the column before the stretch to the column
/// after it, as far as the schematic reaches. In the row of the stretch itself
/// the cursor jumps from the first cell of the stretch to the cell after it, or
/// to the last column of the schematic.
pub struct Adjacent {
    pub row: usize,
    pub start_col: usize,
    pub end_col: usize,
    pub all_rows: usize,
    pub all_cols: usize,
    pub i_row: usize,
    pub i_col: usize,
}

impl Adjacent {
    /// The stretch lies inside the schematic, and so does the cursor unless it
    /// has left the last row that it visits.
    pub open spec fn wf(self) -> bool {
        &&& self.row < self.all_rows
        &&& self.start_col <= self.end_col < self.all_cols
        &&& self.i_col < self.all_cols
        &&& self.i_row <= self.max_row() + 1
    }

    /// The last row that the cursor visits.
    pub open spec fn max_row(self) -> int {
        if self.row + 1 < self.all_rows - 1 {
            self.row + 1
        } else {
            self.all_rows - 1
        }
    }

    /// The last column that the cursor visits.
    pub open spec fn max_col(self) -> int {
        if self.end_col + 1 < self.all_cols - 1 {
            self.end_col + 1
        } else {
            self.all_cols - 1
        }
    }

    /// The first column that the cursor visits.
    pub open spec fn first_col(self) -> int {
        if self.start_col == 0 {
            0
        } else {
            self.start_col - 1
        }
    }

    /// The cursor at the first cell around the stretch of row `row` from column
    /// `start_col` to column `end_col`.
    pub open spec fn around(
        row: usize,
        start_col: usize,
        end_col: usize,
        all_rows: usize,
        all_cols: usize,
    ) -> Adjacent {
        Adjacent {
            row,
            start_col,
            end_col,
            all_rows,
            all_cols,
            i_row: if row == 0 {
                0
            } else {
                (row - 1) as usize
            },
            i_col: if start_col == 0 {
                0
            } else {
                (start_col - 1) as usize
            },
        }
    }

    /// The cursor has visited every cell.
    pub open spec fn done(self) -> bool {
        self.i_row > self.max_row()
    }

    /// The cursor after it has handed out the cell it stands on.
    pub open spec fn moved(self) -> Adjacent {
        if self.i_col >= self.max_col() {
            Adjacent { i_row: (self.i_row + 1) as usize, i_col: self.first_col() as usize, ..self }
        } else if self.i_row == self.row && self.start_col <= self.i_col <= self.end_col {
            Adjacent { i_col: self.max_col() as usize, ..self }
        } else {
            Adjacent { i_col: (self.i_col + 1) as usize, ..self }
        }
    }

    /// The cells that the cursor still hands out, in order.
    pub open spec fn cells(self) -> Seq<Position>
        decreases self.max_row() + 1 - self.i_row, self.max_col() + 1 - self.i_col,
        when self.wf()
    {
        if self.done() {
            Seq::empty()
        } else {
            seq![(self.i_row, self.i_col)] + self.moved().cells()
        }
    }

    /// A cursor over the cells around the stretch of row `row` from column
    /// `start_col` to column `end_col`, in a schematic of `all_rows` rows and
    /// `all_cols` columns.
    pub fn new(row: usize, start_col: usize, end_col: usize, all_rows: usize, all_cols: usize) -> (a:
        Adjacent)
        requires
            row < all_rows,
            start_col <= end_col < all_cols,
        ensures
            a.wf(),
            a == Adjacent::around(row, start_col, end_col, all_rows, all_cols),
    {
        let i_row: usize = row.saturating_sub(1);
        let i_col: usize = start_col.saturating_sub(1);
        Adjacent { row, start_col, end_col, all_rows, all_cols, i_row, i_col }
    }

    /// Hands out the cell that the cursor stands on and moves on, or returns
    /// `None` once every cell has been handed out.
    pub fn next(&mut self) -> (r: Option<Position>)
        requires
            old(self).wf(),
        ensures
            final(self).wf(),
            match r {
                Some(p) => !old(self).done() && p == (old(self).i_row, old(self).i_col)
                    && *final(self) == old(self).moved(),
                None => old(self).done() && *final(self) == *old(self),
            },
    {
        let max_row: usize = if self.row + 1 < self.all_rows - 1 {
            self.row + 1
        } else {
            self.all_rows - 1
        };
        let max_col: usize = if self.end_col + 1 < self.all_cols - 1 {
            self.end_col + 1
        } else {
            self.all_cols - 1
        };
        if self.i_row > max_row {
            return None;
        }
        let to_return = (self.i_row, self.i_col);
        if self.i_col >= max_col {
            self.i_row += 1;
            self.i_col = self.start_col.saturating_sub(1);
        } else {
            if self.i_row == self.row && self.i_col >= self.start_col && self.i_col
                <= self.end_col {
                self.i_col = max_col;
            } else {
                self.i_col += 1;
            }
        }
        Some(to_return)
    }

    /// Every cell that the cursor hands out lies inside the schematic.
    pub proof fn lemma_cells_inside(self)
        requires
            self.wf(),
        ensures
            forall|k: int|
                0 <= k < self.cells().len() ==> (#[trigger] self.cells()[k]).0 < self.all_rows
                    && self.cells()[k].1 < self.all_cols,
        decreases self.max_row() + 1 - self.i_row, self.max_col() + 1 - self.i_col,
    {
        if !self.done() {
            self.moved().lemma_cells_inside();
            let rest = self.moved().cells();
            assert forall|k: int| 0 <= k < self.cells().len() implies (#[trigger] self.cells()[k]).0
                < self.all_rows && self.cells()[k].1 < self.all_cols by {
                if k > 0 {
                    assert(self.cells()[k] == rest[k - 1]);
                }
            }
        }
    }
}

/// Whether `c` is a symbol: neither numeric nor a dot.
pub open spec fn symbol(c: char) -> bool {
    !(is_numeric_char(c) || c == '.')
}

/// Whether `c` is a symbol: neither numeric nor a dot.
pub fn is_symbol(c: char) -> (r: bool)
    ensures
        r == symbol(c),
{
    !(c.is_numeric() || c == '.')
}

/// The character of the schematic at `p`.
pub open spec fn at(cells: Seq<Seq<char>>, p: Position) -> char {
    cells[p.0 as int][p.1 as int]
}

/// Reads a schematic from text: one row for each line. Returns the rows, their
/// number and their length.
pub fn get_grid(s: &str) -> (r: Result<(Vec<Vec<char>>, usize, usize), SchematicError>)
    ensures
        match r {
            Ok((v, n_rows, n_cols)) => {
                &&& rows_of(v@) == lines_of(s@)
                &&& is_sheet(rows_of(v@), n_rows, n_cols)
            },
            Err(e) => e == sheet_error(lines_of(s@)) && !sheet_ok(lines_of(s@)),
        },
{
    let v = text_lines(s);
    let n_rows: usize = v.len();
    if n_rows == 0 {
        return Err(SchematicError::Empty);
    }
    let n_cols: usize = v[0].len();
    proof {
        assert(rows_of(v@)[0] == v@[0]@);
    }
    if n_cols == 0 {
        return Err(SchematicError::Empty);
    }
    let ghost cells = rows_of(v@);
    let mut i: usize = 1;
    while i < n_rows
        invariant
            1 <= i <= n_rows,
            n_rows == v@.len(),
            n_cols >= 1,
            n_cols == v@[0]@.len(),
            cells == rows_of(v@),
            cells == lines_of(s@),
            forall|r: int| 0 <= r < i ==> (#[trigger] cells[r]).len() == n_cols,
        decreases n_rows - i,
    {
        if v[i].len() != n_cols {
            proof {
                assert(cells[0] == v@[0]@);
                assert(cells[i as int] == v@[i as int]@);
                assert(cells[i as int].len() != cells[0].len());
                assert(!rectangular(cells));
            }
            return Err(SchematicError::Ragged);
        }
        i += 1;
    }
    Ok((v, n_rows, n_cols))
}

/// The lines make a schematic: there is a line, the first is not empty, and
/// all have its length.
pub open spec fn sheet_ok(lines: Seq<Seq<char>>) -> bool {
    lines.len() >= 1 && lines[0].len() >= 1 && rectangular(lines)
}

/// Why lines that make no schematic make none.
pub open spec fn sheet_error(lines: Seq<Seq<char>>) -> SchematicError {
    if lines.len() == 0 || lines[0].len() == 0 {
        SchematicError::Empty
    } else {
        SchematicError::Ragged
    }
}

/// A symbol stands on one of `cells`.
pub open spec fn symbol_among(sheet: Seq<Seq<char>>, cells: Seq<Position>) -> bool {
    exists|k: int| 0 <= k < cells.len() && symbol(at(sheet, #[trigger] cells[k]))
}

/// Whether a symbol stands on a cell around the stretch of row `row` from
/// column `start_col` to column `end_col`.
pub fn has_adjacent_symbol(
    grid: &Vec<Vec<char>>,
    row: usize,
    start_col: usize,
    end_col: usize,
    all_rows: usize,
    all_cols: usize,
) -> (r: bool)
    requires
        is_sheet(rows_of(grid@), all_rows, all_cols),
        row < all_rows,
        start_col <= end_col < all_cols,
    ensures
        r == symbol_among(
            rows_of(grid@),
            Adjacent::around(row, start_col, end_col, all_rows, all_cols).cells(),
        ),
{
    let mut cursor = Adjacent::new(row, start_col, end_col, all_rows, all_cols);
    let ghost sheet = rows_of(grid@);
    let ghost all = cursor.cells();
    let ghost mut seen: int = 0;
    proof {
        assert(all.skip(0) =~= all);
    }
    loop
        invariant
            cursor.wf(),
            cursor.all_rows == all_rows,
            cursor.all_cols == all_cols,
            sheet == rows_of(grid@),
            is_sheet(sheet, all_rows, all_cols),
            0 <= seen <= all.len(),
            all == Adjacent::around(row, start_col, end_col, all_rows, all_cols).cells(),
            cursor.cells() == all.skip(seen),
            forall|k: int| 0 <= k < seen ==> !symbol(at(sheet, #[trigger] all[k])),
        decreases all.len() - seen,
    {
        let ghost before = cursor;
        match cursor.next() {
            Some((r, c)) => {
                proof {
                    before.lemma_cells_inside();
                    assert(before.cells() == seq![(r, c)] + before.moved().cells());
                    assert(before.cells()[0] == (r, c));
                    assert(all[seen] == all.skip(seen)[0]);
                    assert(all.skip(seen + 1) =~= all.skip(seen).skip(1));
                    assert(before.moved().cells() =~= before.cells().skip(1));
                    assert(sheet[r as int] == grid@[r as int]@);
                }
                if is_symbol(grid[r][c]) {
                    return true;
                }
                proof {
                    seen = seen + 1;
                }
            },
            None => {
                proof {
                    assert(all.skip(seen).len() == 0);
                }
                return false;
            },
        }
    }
}

/// Where the run of numeric characters that reaches column `col` from the left
/// begins.
pub open spec fn left_end(line: Seq<char>, col: int) -> int
    decreases col,
{
    if col <= 0 || !is_numeric_char(line[col - 1]) {
        col
    } else {
        left_end(line, col - 1)
    }
}

/// Where the run of numeric characters that leaves column `col` to the right
/// ends.
pub open spec fn right_end(line: Seq<char>, col: int) -> int
    decreases line.len() - col,
{
    if col + 1 >= line.len() || !is_numeric_char(line[col + 1]) {
        col
    } else {
        right_end(line, col + 1)
    }
}

/// The number that the characters of `line` from `start` to `end` write.
pub open spec fn number_between(line: Seq<char>, start: int, end: int) -> Result<
    i32,
    SchematicError,
> {
    match small_number_of(line.subrange(start, end + 1)) {
        Some(n) => Ok(n),
        None => Err(SchematicError::BadNumber),
    }
}

/// The number that the cell at column `col` of `line` belongs to, with the
/// columns where it begins and ends: the cell itself and the numeric
/// characters to both sides of it.
pub open spec fn number_around(line: Seq<char>, col: int) -> Result<
    (i32, usize, usize),
    SchematicError,
> {
    let start = left_end(line, col);
    let end = right_end(line, col);
    match number_between(line, start, end) {
        Ok(n) => Ok((n, start as usize, end as usize)),
        Err(e) => Err(e),
    }
}

/// The number that the cell at `(row, col)` belongs to, with the columns where
/// it begins and ends.
pub fn get_number(grid: &Vec<Vec<char>>, row: usize, col: usize, all_cols: usize) -> (r: Result<
    (i32, usize, usize),
    SchematicError,
>)
    requires
        row < grid@.len(),
        col < all_cols,
        all_cols == grid@[row as int]@.len(),
    ensures
        r == number_around(grid@[row as int]@, col as int),
{
    let line = &grid[row];
    let mut start_col: usize = col;
    while start_col > 0 && line[start_col - 1].is_numeric()
        invariant
            start_col <= col < all_cols,
            all_cols == line@.len(),
            left_end(line@, col as int) == left_end(line@, start_col as int),
        decreases start_col,
    {
        start_col -= 1;
    }
    let mut end_col: usize = col;
    while end_col + 1 < all_cols && line[end_col + 1].is_numeric()
        invariant
            col <= end_col < all_cols,
            all_cols == line@.len(),
            right_end(line@, col as int) == right_end(line@, end_col as int),
        decreases all_cols - end_col,
    {
        end_col += 1;
    }
    let text = slice_of(line, start_col, end_col + 1);
    match parse_small_number(&text) {
        Some(num) => Ok((num, start_col, end_col)),
        None => Err(SchematicError::BadNumber),
    }
}

/// A number found next to a gear: its value, its row, and the columns where it
/// begins and ends.
pub type Found = (i32, usize, usize, usize);

/// `p` is a cell of one of the numbers `found`.
pub open spec fn covered(found: Seq<Found>, p: Position) -> bool {
    exists|k: int|
        0 <= k < found.len() && p.0 == (#[trigger] found[k]).1 && found[k].2 <= p.1 <= found[k].3
}

/// The numbers found on `cells`, in order, each once: `Ok(None)` as soon as a
/// third number is found.
pub open spec fn numbers_on(sheet: Seq<Seq<char>>, cells: Seq<Position>) -> Result<
    Option<Seq<Found>>,
    SchematicError,
>
    decreases cells.len(),
{
    if cells.len() == 0 {
        Ok(Some(Seq::empty()))
    } else {
        match numbers_on(sheet, cells.drop_last()) {
            Err(e) => Err(e),
            Ok(None) => Ok(None),
            Ok(Some(found)) => {
                let p = cells.last();
                if covered(found, p) || !is_numeric_char(at(sheet, p)) {
                    Ok(Some(found))
                } else if found.len() == 2 {
                    Ok(None)
                } else {
                    match number_around(sheet[p.0 as int], p.1 as int) {
                        Err(e) => Err(e),
                        Ok((n, start, end)) => Ok(Some(found.push((n, p.0, start, end)))),
                    }
                }
            },
        }
    }
}

/// The gear ratio of the cell at `(row, col)`: the product of the two numbers
/// around it, or `None` when the cell holds no `*` or there are not exactly
/// two numbers around it.
pub open spec fn gear_ratio(sheet: Seq<Seq<char>>, row: usize, col: usize, rows: usize, cols: usize)
    -> Result<Option<i32>, SchematicError> {
    if at(sheet, (row, col)) != '*' {
        Ok(None)
    } else {
        let around = Adjacent::around(row, col, col, rows, cols);
        match numbers_on(sheet, around.cells()) {
            Err(e) => Err(e),
            Ok(None) => Ok(None),
            Ok(Some(found)) => if found.len() == 2 {
                if i32::MIN <= found[0].0 * found[1].0 <= i32::MAX {
                    Ok(Some((found[0].0 * found[1].0) as i32))
                } else {
                    Err(SchematicError::Overflow)
                }
            } else {
                Ok(None)
            },
        }
    }
}

/// Once a third number has been found, or a number could not be read, the
/// search has ended.
pub proof fn lemma_numbers_end(sheet: Seq<Seq<char>>, cells: Seq<Position>, n: int)
    requires
        0 <= n <= cells.len(),
        !(numbers_on(sheet, cells.take(n)) matches Ok(Some(found))),
    ensures
        numbers_on(sheet, cells) == numbers_on(sheet, cells.take(n)),
    decreases cells.len() - n,
{
    if n < cells.len() {
        assert(cells.take(n + 1).drop_last() =~= cells.take(n));
        lemma_numbers_end(sheet, cells, n + 1);
    } else {
        assert(cells.take(n) =~= cells);
    }
}

/// Whether `p` is a cell of one of the numbers `found`.
pub fn is_covered(found: &Vec<Found>, p: &Position) -> (r: bool)
    ensures
        r == covered(found@, *p),
{
    let mut k: usize = 0;
    while k < found.len()
        invariant
            k <= found.len(),
            forall|j: int|
                0 <= j < k ==> !(p.0 == (#[trigger] found@[j]).1 && found@[j].2 <= p.1
                    <= found@[j].3),
        decreases found.len() - k,
    {
        if p.0 == found[k].1 && p.1 >= found[k].2 && p.1 <= found[k].3 {
            return true;
        }
        k += 1;
    }
    false
}

/// The gear ratio of the cell at `(row, col)`, or `None` when it is no gear.
pub fn get_gear_ratio(
    grid: &Vec<Vec<char>>,
    row: usize,
    col: usize,
    all_rows: usize,
    all_cols: usize,
) -> (r: Result<Option<i32>, SchematicError>)
    requires
        is_sheet(rows_of(grid@), all_rows, all_cols),
        row < all_rows,
        col < all_cols,
    ensures
        r == gear_ratio(rows_of(grid@), row, col, all_rows, all_cols),
{
    let ghost sheet = rows_of(grid@);
    proof {
        assert(sheet[row as int] == grid@[row as int]@);
    }
    if grid[row][col] != '*' {
        return Ok(None);
    }
    let mut adj_nums: Vec<Found> = Vec::new();
    let mut cursor = Adjacent::new(row, col, col, all_rows, all_cols);
    let ghost all = cursor.cells();
    let ghost mut seen: int = 0;
    proof {
        assert(all.skip(0) =~= all);
        assert(all.take(0) =~= Seq::<Position>::empty());
    }
    loop
        invariant
            cursor.wf(),
            cursor.all_rows == all_rows,
            cursor.all_cols == all_cols,
            sheet == rows_of(grid@),
            is_sheet(sheet, all_rows, all_cols),
            0 <= seen <= all.len(),
            all == Adjacent::around(row, col, col, all_rows, all_cols).cells(),
            cursor.cells() == all.skip(seen),
            numbers_on(sheet, all.take(seen)) == Ok::<Option<Seq<Found>>, SchematicError>(
                Some(adj_nums@),
            ),
            adj_nums@.len() <= 2,
            at(sheet, (row, col)) == '*',
            gear_ratio(sheet, row, col, all_rows, all_cols) == match numbers_on(sheet, all) {
                Err(e) => Err::<Option<i32>, SchematicError>(e),
                Ok(None) => Ok::<Option<i32>, SchematicError>(None),
                Ok(Some(found)) => if found.len() == 2 {
                    if i32::MIN <= found[0].0 * found[1].0 <= i32::MAX {
                        Ok::<Option<i32>, SchematicError>(Some((found[0].0 * found[1].0) as i32))
                    } else {
                        Err::<Option<i32>, SchematicError>(SchematicError::Overflow)
                    }
                } else {
                    Ok::<Option<i32>, SchematicError>(None)
                },
            },
        decreases all.len() - seen,
    {
        let ghost before = cursor;
        match cursor.next() {
            Some((r, c)) => {
                proof {
                    before.lemma_cells_inside();
                    assert(before.cells() == seq![(r, c)] + before.moved().cells());
                    assert(before.cells()[0] == (r, c));
                    assert(all[seen] == all.skip(seen)[0]);
                    assert(all.skip(seen + 1) =~= all.skip(seen).skip(1));
                    assert(before.moved().cells() =~= before.cells().skip(1));
                    assert(sheet[r as int] == grid@[r as int]@);
                    assert(all.take(seen + 1).drop_last() =~= all.take(seen));
                    assert(all.take(seen + 1).last() == (r, c));
                }
                if !is_covered(&adj_nums, &(r, c)) && grid[r][c].is_numeric() {
                    if adj_nums.len() == 2 {
                        proof {
                            assert(numbers_on(sheet, all.take(seen + 1)) == Ok::<
                                Option<Seq<Found>>,
                                SchematicError,
                            >(None));
                            lemma_numbers_end(sheet, all, seen + 1);
                        }
                        return Ok(None);
                    }
                    match get_number(grid, r, c, all_cols) {
                        Ok((num, start_col, end_col)) => {
                            adj_nums.push((num, r, start_col, end_col));
                        },
                        Err(e) => {
                            proof {
                                assert(numbers_on(sheet, all.take(seen + 1)) == Err::<
                                    Option<Seq<Found>>,
                                    SchematicError,
                                >(e));
                                lemma_numbers_end(sheet, all, seen + 1);
                            }
                            return Err(e);
                        },
                    }
                }
                proof {
                    seen = seen + 1;
                }
            },
            None => {
                proof {
                    assert(all.skip(seen).len() == 0);
                    assert(all.take(seen) =~= all);
                }
                if adj_nums.len() == 2 {
                    return match adj_nums[0].0.checked_mul(adj_nums[1].0) {
                        Some(ratio) => Ok(Some(ratio)),
                        None => Err(SchematicError::Overflow),
                    };
                }
                return Ok(None);
            },
        }
    }
}

/// What the number that ends at column `end` of row `row` adds to the sum of
/// the part numbers: its value when a symbol stands around it, and else
/// nothing.
pub open spec fn part_value(sheet: Seq<Seq<char>>, row: usize, end: usize, rows: usize, cols: usize)
    -> Result<i32, SchematicError> {
    let start = left_end(sheet[row as int], end as int) as usize;
    let around = Adjacent::around(row, start, end, rows, cols);
    if symbol_among(sheet, around.cells()) {
        number_between(sheet[row as int], start as int, end as int)
    } else {
        Ok(0)
    }
}

/// A number ends at column `col` of `line`: the character there is numeric,
/// and the next one, if there is one, is not.
pub open spec fn ends_number(line: Seq<char>, col: int) -> bool {
    is_numeric_char(line[col]) && (col + 1 >= line.len() || !is_numeric_char(line[col + 1]))
}

/// What the cell at `(row, col)` adds to a sum: for the part numbers, the
/// number that ends there if a symbol stands around it; for the gears, the
/// gear ratio of the cell.
pub open spec fn cell_value(
    sheet: Seq<Seq<char>>,
    row: usize,
    col: usize,
    rows: usize,
    cols: usize,
    gears: bool,
) -> Result<i32, SchematicError> {
    if gears {
        match gear_ratio(sheet, row, col, rows, cols) {
            Err(e) => Err(e),
            Ok(Some(ratio)) => Ok(ratio),
            Ok(None) => Ok(0),
        }
    } else if ends_number(sheet[row as int], col as int) {
        part_value(sheet, row, col, rows, cols)
    } else {
        Ok(0)
    }
}

/// The sum of what the first `n` cells of the schematic add, in row-major
/// order, or the error of the first cell that adds none, or `Overflow` once
/// the sum leaves 32 bits.
pub open spec fn cells_sum(sheet: Seq<Seq<char>>, rows: usize, cols: usize, gears: bool, n: int)
    -> Result<i32, SchematicError>
    decreases n,
{
    if n <= 0 || cols == 0 {
        Ok(0)
    } else {
        match cells_sum(sheet, rows, cols, gears, n - 1) {
            Err(e) => Err(e),
            Ok(total) => match cell_value(
                sheet,
                ((n - 1) / (cols as int)) as usize,
                ((n - 1) % (cols as int)) as usize,
                rows,
                cols,
                gears,
            ) {
                Err(e) => Err(e),
                Ok(v) => if i32::MIN <= total + v <= i32::MAX {
                    Ok((total + v) as i32)
                } else {
                    Err(SchematicError::Overflow)
                },
            },
        }
    }
}

/// The sum over the schematic in `text`.
pub open spec fn schematic_sum(text: Seq<char>, gears: bool) -> Result<i32, SchematicError> {
    let lines = lines_of(text);
    if !sheet_ok(lines) {
        Err(sheet_error(lines))
    } else {
        let rows = lines.len() as usize;
        let cols = lines[0].len() as usize;
        cells_sum(lines, rows, cols, gears, rows * cols)
    }
}

/// An error among the first cells is the error of all of them.
pub proof fn lemma_cells_error_stays(
    sheet: Seq<Seq<char>>,
    rows: usize,
    cols: usize,
    gears: bool,
    n: int,
    more: int,
)
    requires
        0 <= n <= more,
        cells_sum(sheet, rows, cols, gears, n) is Err,
    ensures
        cells_sum(sheet, rows, cols, gears, more) == cells_sum(sheet, rows, cols, gears, n),
    decreases more - n,
{
    if n < more {
        lemma_cells_error_stays(sheet, rows, cols, gears, n, more - 1);
    }
}

/// What the cell at `(row, col)` adds to a sum.
pub fn value_cell(
    grid: &Vec<Vec<char>>,
    row: usize,
    col: usize,
    all_rows: usize,
    all_cols: usize,
    gears: bool,
) -> (r: Result<i32, SchematicError>)
    requires
        is_sheet(rows_of(grid@), all_rows, all_cols),
        row < all_rows,
        col < all_cols,
    ensures
        r == cell_value(rows_of(grid@), row, col, all_rows, all_cols, gears),
{
    let ghost sheet = rows_of(grid@);
    proof {
        assert(sheet[row as int] == grid@[row as int]@);
    }
    if gears {
        match get_gear_ratio(grid, row, col, all_rows, all_cols) {
            Ok(Some(ratio)) => Ok(ratio),
            Ok(None) => Ok(0),
            Err(e) => Err(e),
        }
    } else {
        let line = &grid[row];
        if !line[col].is_numeric() {
            return Ok(0);
        }
        if col + 1 < all_cols && line[col + 1].is_numeric() {
            return Ok(0);
        }
        let mut start_col: usize = col;
        while start_col > 0 && line[start_col - 1].is_numeric()
            invariant
                start_col <= col < all_cols,
                all_cols == line@.len(),
                left_end(line@, col as int) == left_end(line@, start_col as int),
            decreases start_col,
        {
            start_col -= 1;
        }
        if has_adjacent_symbol(grid, row, start_col, col, all_rows, all_cols) {
            let text = slice_of(line, start_col, col + 1);
            match parse_small_number(&text) {
                Some(num) => Ok(num),
                None => Err(SchematicError::BadNumber),
            }
        } else {
            Ok(0)
        }
    }
}

/// Sums what the cells of the schematic in `s` add.
pub fn sum_schematic(s: &str, gears: bool) -> (r: Result<i32, SchematicError>)
    ensures
        r == schematic_sum(s@, gears),
{
    let (grid, all_rows, all_cols) = match get_grid(s) {
        Ok(sheet) => sheet,
        Err(e) => {
            return Err(e);
        },
    };
    let ghost sheet = rows_of(grid@);
    let mut total: i32 = 0;
    let mut ir: usize = 0;
    proof {
        assert(0 * all_cols == 0) by (nonlinear_arith);
    }
    while ir < all_rows
        invariant
            ir <= all_rows,
            sheet == rows_of(grid@),
            sheet == lines_of(s@),
            is_sheet(sheet, all_rows, all_cols),
            cells_sum(sheet, all_rows, all_cols, gears, ir * all_cols) == Ok::<
                i32,
                SchematicError,
            >(total),
        decreases all_rows - ir,
    {
        let mut ic: usize = 0;
        while ic < all_cols
            invariant
                ir < all_rows,
                ic <= all_cols,
                sheet == rows_of(grid@),
                sheet == lines_of(s@),
                is_sheet(sheet, all_rows, all_cols),
                cells_sum(sheet, all_rows, all_cols, gears, ir * all_cols + ic) == Ok::<
                    i32,
                    SchematicError,
                >(total),
            decreases all_cols - ic,
        {
            let ghost n = ir * all_cols + ic + 1;
            proof {
                assert(0 <= ir * all_cols) by (nonlinear_arith)
                    requires
                        0 <= ir,
                        0 <= all_cols,
                ;
                vstd::arithmetic::div_mod::lemma_fundamental_div_mod_converse(
                    n - 1,
                    all_cols as int,
                    ir as int,
                    ic as int,
                );
                assert(n <= all_rows * all_cols) by (nonlinear_arith)
                    requires
                        n == ir * all_cols + ic + 1,
                        ir < all_rows,
                        ic < all_cols,
                ;
            }
            let next = match value_cell(&grid, ir, ic, all_rows, all_cols, gears) {
                Ok(v) => match total.checked_add(v) {
                    Some(sum) => Ok(sum),
                    None => Err(SchematicError::Overflow),
                },
                Err(e) => Err(e),
            };
            match next {
                Ok(sum) => {
                    total = sum;
                },
                Err(e) => {
                    proof {
                        assert(cells_sum(sheet, all_rows, all_cols, gears, n) == Err::<
                            i32,
                            SchematicError,
                        >(e));
                        lemma_cells_error_stays(
                            sheet,
                            all_rows,
                            all_cols,
                            gears,
                            n,
                            all_rows * all_cols,
                        );
                    }
                    return Err(e);
                },
            }
            ic += 1;
        }
        proof {
            assert((ir + 1) * all_cols == ir * all_cols + all_cols) by (nonlinear_arith);
        }
        ir += 1;
    }
    Ok(total)
}

/// The sum of the part numbers of the schematic, in decimal.
pub fn part_1(s: &str) -> (r: Result<String, SchematicError>)
    ensures
        match r {
            Ok(answer) => schematic_sum(s@, false) matches Ok(n) && answer@ == signed_decimal(
                n as int,
            ),
            Err(e) => schematic_sum(s@, false) == Err::<i32, SchematicError>(e),
        },
{
    match sum_schematic(s, false) {
        Ok(total) => Ok(signed_decimal_string(total as i64)),
        Err(e) => Err(e),
    }
}

/// The sum of the gear ratios of the schematic, in decimal.
pub fn part_2(s: &str) -> (r: Result<String, SchematicError>)
    ensures
        match r {
            Ok(answer) => schematic_sum(s@, true) matches Ok(n) && answer@ == signed_decimal(
                n as int,
            ),
            Err(e) => schematic_sum(s@, true) == Err::<i32, SchematicError>(e),
        },
{
    match sum_schematic(s, true) {
        Ok(total) => Ok(signed_decimal_string(total as i64)),
        Err(e) => Err(e),
    }
}

} // verus!
